//! Fixed-point base-2 logarithms and the entropy of a prior-weighted
//! feedback distribution.
//!
//! Information is measured in bits scaled by `FIXED_ONE` (2^16): the value
//! `FIXED_ONE` stands for exactly one bit. The logarithm of `x >= 1` is
//! computed as its integer part (the position of the leading binary digit)
//! plus sixteen fraction bits obtained by repeatedly squaring the mantissa.

use vstd::prelude::*;

verus! {

use vstd::arithmetic::power2::{
    pow2,
    lemma_pow2_adds,
    lemma_pow2_strictly_increases,
    lemma_pow2_pos,
    lemma2_to64,
};
use vstd::arithmetic::div_mod::{
    lemma_div_denominator,
    lemma_div_is_ordered,
    lemma_multiply_divide_lt,
    lemma_fundamental_div_mod,
};
use vstd::arithmetic::mul::lemma_mul_inequality;

/// One bit of information, in fixed-point scale.
pub const FIXED_ONE: u64 = 65536;

/// The largest total prior mass the engine accepts. Keeping the mass below
/// 2^40 lets every entropy computation stay inside a `u64`.
pub const MASS_MAX: u64 = 0x100_0000_0000;

/// The exponent of the leading binary digit of `x`: the largest `e` with
/// `pow2(e) <= x` (0 for `x < 2`).
pub open spec fn spec_floor_log2(x: int) -> int
    decreases x,
{
    if x < 2 {
        0
    } else {
        1 + spec_floor_log2(x / 2)
    }
}

/// The mantissa of `x`, normalised into [2^30, 2^31).
pub open spec fn spec_mantissa(x: int) -> int {
    let e = spec_floor_log2(x);
    if e >= 30 {
        x / pow2((e - 30) as nat) as int
    } else {
        x * pow2((30 - e) as nat) as int
    }
}

/// `n` binary fraction digits of the logarithm of a mantissa in
/// [2^30, 2^31), most significant digit first, read off by squaring.
pub open spec fn spec_frac(m: int, n: nat) -> int
    decreases n,
{
    if n == 0 {
        0
    } else {
        let s = (m * m) / 0x4000_0000;
        if s >= 0x8000_0000 {
            pow2((n - 1) as nat) + spec_frac(s / 2, (n - 1) as nat)
        } else {
            spec_frac(s, (n - 1) as nat)
        }
    }
}

/// The fixed-point base-2 logarithm of `x`: `FIXED_ONE` times the integer
/// part plus sixteen fraction digits. Values below 1 are mapped to 0.
pub open spec fn spec_lg(x: int) -> int {
    if x < 1 {
        0
    } else {
        spec_floor_log2(x) * 65536 + spec_frac(spec_mantissa(x), 16)
    }
}

/// The leading digit brackets the value: `pow2(e) <= x < pow2(e + 1)`.
pub proof fn lemma_floor_log2_bounds(x: int)
    requires
        x >= 1,
    ensures
        0 <= spec_floor_log2(x),
        pow2(spec_floor_log2(x) as nat) as int <= x < pow2((spec_floor_log2(x) + 1) as nat) as int,
    decreases x,
{
    lemma2_to64();
    if x < 2 {
        assert(pow2(0) == 1 && pow2(1) == 2);
    } else {
        lemma_floor_log2_bounds(x / 2);
        let e = spec_floor_log2(x / 2);
        lemma_pow2_adds(e as nat, 1);
        lemma_pow2_adds((e + 1) as nat, 1);
        lemma_fundamental_div_mod(x, 2);
    }
}

/// `floor_log2` does not decrease as its argument grows.
pub proof fn lemma_floor_log2_mono(a: int, b: int)
    requires
        1 <= a <= b,
    ensures
        spec_floor_log2(a) <= spec_floor_log2(b),
    decreases b,
{
    if a >= 2 && b >= 2 {
        lemma_div_is_ordered(a, b, 2);
        lemma_floor_log2_mono(a / 2, b / 2);
    } else if a < 2 {
        if b >= 2 {
            lemma_floor_log2_bounds(b);
        }
    }
}

/// The mantissa of `x` is normalised: it lies in [2^30, 2^31).
pub proof fn lemma_mantissa_bounds(x: int)
    requires
        x >= 1,
    ensures
        0x4000_0000 <= spec_mantissa(x) < 0x8000_0000,
{
    lemma2_to64();
    let e = spec_floor_log2(x);
    lemma_floor_log2_bounds(x);
    if e >= 30 {
        let d = pow2((e - 30) as nat) as int;
        lemma_pow2_pos((e - 30) as nat);
        lemma_pow2_adds(30, (e - 30) as nat);
        // x >= pow2(e) == pow2(30) * d, so x / d >= pow2(30)
        assert(x / d >= 0x4000_0000) by {
            lemma_div_is_ordered(0x4000_0000int * d, x, d);
            vstd::arithmetic::div_mod::lemma_div_multiples_vanish(0x4000_0000, d);
        }
        // x < pow2(e + 1) == pow2(31) * d, so x / d < pow2(31)
        assert(x / d < 0x8000_0000) by {
            lemma_pow2_adds(31, (e - 30) as nat);
            lemma_multiply_divide_lt(x, d, 0x8000_0000);
        }
    } else {
        let f = pow2((30 - e) as nat) as int;
        lemma_pow2_pos((30 - e) as nat);
        lemma_pow2_adds(e as nat, (30 - e) as nat);
        lemma_pow2_adds((e + 1) as nat, (30 - e) as nat);
        // pow2(e) <= x implies pow2(30) <= x * f
        lemma_mul_inequality(pow2(e as nat) as int, x, f);
        // x < pow2(e + 1) implies x * f < pow2(31)
        lemma_mul_inequality(x + 1, pow2((e + 1) as nat) as int, f);
        assert((x + 1) * f == x * f + f) by (nonlinear_arith);
    }
}

/// A power of two for exponents below 64.
pub fn pow2_u64(k: u64) -> (r: u64)
    requires
        k < 64,
    ensures
        r as int == pow2(k as nat) as int,
{
    let mut r: u64 = 1;
    let mut i: u64 = 0;
    proof {
        lemma2_to64();
        vstd::arithmetic::power2::lemma2_to64_rest();
    }
    while i < k
        invariant
            i <= k < 64,
            r as int == pow2(i as nat) as int,
        decreases k - i,
    {
        proof {
            lemma_pow2_adds(i as nat, 1);
            lemma2_to64();
            if i + 1 < 64 {
                lemma_pow2_strictly_increases((i + 1) as nat, 64);
            }
            vstd::arithmetic::power2::lemma2_to64_rest();
        }
        r = r * 2;
        i = i + 1;
    }
    r
}

/// The fraction digits are `n` binary digits: they lie in [0, pow2(n)).
pub proof fn lemma_frac_bounds(m: int, n: nat)
    ensures
        0 <= spec_frac(m, n) < pow2(n),
    decreases n,
{
    lemma_pow2_pos(n);
    lemma2_to64();
    if n > 0 {
        let s = (m * m) / 0x4000_0000;
        lemma_pow2_adds((n - 1) as nat, 1);
        assert(pow2(n) == pow2((n - 1) as nat) * 2);
        if s >= 0x8000_0000 {
            lemma_frac_bounds(s / 2, (n - 1) as nat);
        } else {
            lemma_frac_bounds(s, (n - 1) as nat);
            lemma_pow2_strictly_increases((n - 1) as nat, n);
        }
    }
}

/// The fraction digits do not decrease as the mantissa grows.
pub proof fn lemma_frac_mono(m1: int, m2: int, n: nat)
    requires
        0 <= m1 <= m2,
    ensures
        spec_frac(m1, n) <= spec_frac(m2, n),
    decreases n,
{
    if n > 0 {
        let s1 = (m1 * m1) / 0x4000_0000;
        let s2 = (m2 * m2) / 0x4000_0000;
        assert(0 <= m1 * m1 && m1 * m1 <= m2 * m2) by (nonlinear_arith)
            requires
                0 <= m1 <= m2,
        ;
        lemma_div_is_ordered(m1 * m1, m2 * m2, 0x4000_0000);
        vstd::arithmetic::div_mod::lemma_div_pos_is_pos(m1 * m1, 0x4000_0000);
        if s1 >= 0x8000_0000 {
            lemma_div_is_ordered(s1, s2, 2);
            lemma_frac_mono(s1 / 2, s2 / 2, (n - 1) as nat);
        } else if s2 >= 0x8000_0000 {
            lemma_frac_bounds(s1, (n - 1) as nat);
            lemma_frac_bounds(s2 / 2, (n - 1) as nat);
        } else {
            lemma_frac_mono(s1, s2, (n - 1) as nat);
        }
    }
}

/// The smallest mantissa has no fraction digits: squaring it always lands
/// back on itself.
proof fn lemma_frac_of_min_mantissa(n: nat)
    ensures
        spec_frac(0x4000_0000, n) == 0,
    decreases n,
{
    if n > 0 {
        assert((0x4000_0000int * 0x4000_0000) / 0x4000_0000 == 0x4000_0000) by {
            vstd::arithmetic::div_mod::lemma_div_multiples_vanish(0x4000_0000, 0x4000_0000);
        }
        lemma_frac_of_min_mantissa((n - 1) as nat);
    }
}

/// The logarithm of one is zero.
pub proof fn lemma_lg_one()
    ensures
        spec_lg(1) == 0,
{
    lemma2_to64();
    assert(spec_floor_log2(1) == 0);
    assert(spec_mantissa(1) == 0x4000_0000);
    lemma_frac_of_min_mantissa(16);
}

/// Doubling a value adds exactly one bit to its logarithm.
pub proof fn lemma_lg_double(x: int)
    requires
        x >= 1,
    ensures
        spec_lg(2 * x) == spec_lg(x) + 65536,
{
    let e = spec_floor_log2(x);
    lemma_floor_log2_bounds(x);
    assert((2 * x) / 2 == x);
    assert(spec_floor_log2(2 * x) == 1 + e);
    assert(spec_mantissa(2 * x) == spec_mantissa(x)) by {
        lemma2_to64();
        if e >= 30 {
            let p = pow2((e - 30) as nat) as int;
            lemma_pow2_pos((e - 30) as nat);
            lemma_pow2_adds(1, (e - 30) as nat);
            assert(pow2((e + 1 - 30) as nat) as int == 2 * p);
            lemma_div_denominator(2 * x, 2, p);
            assert(spec_mantissa(2 * x) == (2 * x) / (2 * p));
            assert((2 * x) / 2 / p == x / p);
        } else if e == 29 {
            assert(pow2(0) == 1 && pow2(1) == 2);
            assert(spec_mantissa(2 * x) == (2 * x) / 1);
            assert(spec_mantissa(x) == x * 2);
        } else {
            let q = pow2((29 - e) as nat) as int;
            lemma_pow2_pos((29 - e) as nat);
            lemma_pow2_adds((29 - e) as nat, 1);
            assert((2 * x) * q == x * (2 * q)) by (nonlinear_arith);
        }
    }
}

/// The logarithm of a power of two is exact: `k` whole bits.
pub proof fn lemma_lg_pow2(k: nat)
    ensures
        spec_lg(pow2(k) as int) == k * 65536,
    decreases k,
{
    if k == 0 {
        lemma2_to64();
        lemma_lg_one();
    } else {
        lemma_lg_pow2((k - 1) as nat);
        lemma_pow2_pos((k - 1) as nat);
        lemma_pow2_adds((k - 1) as nat, 1);
        lemma2_to64();
        assert(pow2(k) as int == 2 * pow2((k - 1) as nat) as int);
        lemma_lg_double(pow2((k - 1) as nat) as int);
        assert(k * 65536 == (k - 1) * 65536 + 65536) by (nonlinear_arith)
            requires
                k >= 1,
        ;
    }
}

/// The logarithm never decreases as its argument grows.
pub proof fn lemma_lg_mono(a: int, b: int)
    requires
        1 <= a <= b,
    ensures
        spec_lg(a) <= spec_lg(b),
{
    lemma2_to64();
    let ea = spec_floor_log2(a);
    let eb = spec_floor_log2(b);
    lemma_floor_log2_mono(a, b);
    lemma_floor_log2_bounds(a);
    lemma_floor_log2_bounds(b);
    lemma_frac_bounds(spec_mantissa(a), 16);
    lemma_frac_bounds(spec_mantissa(b), 16);
    if ea == eb {
        lemma_mantissa_bounds(a);
        lemma_mantissa_bounds(b);
        assert(spec_mantissa(a) <= spec_mantissa(b)) by {
            if ea >= 30 {
                lemma_pow2_pos((ea - 30) as nat);
                lemma_div_is_ordered(a, b, pow2((ea - 30) as nat) as int);
            } else {
                lemma_pow2_pos((30 - ea) as nat);
                lemma_mul_inequality(a, b, pow2((30 - ea) as nat) as int);
            }
        }
        lemma_frac_mono(spec_mantissa(a), spec_mantissa(b), 16);
    }
}

/// Logarithms are never negative.
pub proof fn lemma_lg_nonneg(x: int)
    ensures
        spec_lg(x) >= 0,
{
    if x >= 1 {
        lemma_floor_log2_bounds(x);
        lemma_frac_bounds(spec_mantissa(x), 16);
    }
}

/// The fixed-point base-2 logarithm of `x`.
pub fn lg_fixed(x: u64) -> (r: u64)
    requires
        x >= 1,
    ensures
        r as int == spec_lg(x as int),
{
    // Integer part: strip binary digits until one is left.
    let mut y: u64 = x;
    let mut e: u64 = 0;
    proof {
        lemma2_to64();
    }
    while y >= 2
        invariant
            1 <= y,
            pow2(e as nat) as int <= x as int,
            e < 64,
            spec_floor_log2(x as int) == e + spec_floor_log2(y as int),
            y as int == x as int / pow2(e as nat) as int,
        decreases y,
    {
        proof {
            let p = pow2(e as nat) as int;
            lemma_pow2_pos(e as nat);
            lemma_pow2_adds(e as nat, 1);
            // x / pow2(e) / 2 == x / pow2(e + 1)
            lemma_div_denominator(x as int, p, 2);
            // y >= 2 means pow2(e + 1) <= x
            lemma_fundamental_div_mod(x as int, p);
            lemma_mul_inequality(2, y as int, p);
            assert(p * y as int == y as int * p) by (nonlinear_arith);
            // e + 1 stays below 64
            lemma2_to64();
            vstd::arithmetic::power2::lemma2_to64_rest();
            if e + 1 >= 64 {
                lemma_pow2_strictly_increases(64, (e + 1) as nat);
            }
        }
        y = y / 2;
        e = e + 1;
    }
    // y == 1, so e is the floor log2 of x.
    proof {
        lemma_floor_log2_bounds(x as int);
        lemma_mantissa_bounds(x as int);
    }

    // Mantissa, normalised into [2^30, 2^31).
    let m0: u64 = if e >= 30 {
        let d = pow2_u64(e - 30);
        proof {
            lemma_pow2_pos((e - 30) as nat);
        }
        x / d
    } else {
        let f = pow2_u64(30 - e);
        proof {
            let ee = spec_floor_log2(x as int);
            lemma_floor_log2_bounds(x as int);
            lemma_pow2_pos((30 - ee) as nat);
            lemma_mul_inequality(x as int, pow2((ee + 1) as nat) as int - 1, pow2(
                (30 - ee) as nat,
            ) as int);
            lemma_pow2_adds((ee + 1) as nat, (30 - ee) as nat);
            lemma2_to64();
        }
        x * f
    };
    proof {
        assert(m0 as int == spec_mantissa(x as int));
    }

    // Sixteen fraction digits, by squaring the mantissa.
    let ghost mant = m0 as int;
    let mut m: u64 = m0;
    let mut f: u64 = 0;
    let mut i: u64 = 0;
    proof {
        lemma2_to64();
    }
    while i < 16
        invariant
            i <= 16,
            0x4000_0000 <= m < 0x8000_0000,
            f as int * pow2((16 - i) as nat) as int + spec_frac(m as int, (16 - i) as nat)
                == spec_frac(mant, 16),
            (f as int) < pow2(i as nat) as int,
        decreases 16 - i,
    {
        proof {
            lemma2_to64();
            assert(0x4000_0000 * 0x4000_0000 <= (m as int * m as int) && (m as int * m as int)
                < 0x8000_0000 * 0x8000_0000) by (nonlinear_arith)
                requires
                    0x4000_0000 <= m < 0x8000_0000,
            ;
            assert((m as int * m as int) / 0x4000_0000 >= 0x4000_0000) by {
                lemma_div_is_ordered(0x4000_0000int * 0x4000_0000, m as int * m as int, 0x4000_0000);
                vstd::arithmetic::div_mod::lemma_div_multiples_vanish(0x4000_0000, 0x4000_0000);
            }
            assert((m as int * m as int) / 0x4000_0000 < 0x1_0000_0000) by {
                lemma_multiply_divide_lt(m as int * m as int, 0x4000_0000, 0x1_0000_0000);
            }
            lemma_pow2_adds((15 - i) as nat, 1);
            lemma_pow2_adds(i as nat, 1);
        }
        let ghost old_m = m as int;
        let ghost old_f = f as int;
        let ghost half = pow2((15 - i) as nat) as int;
        let s = (m * m) / 0x4000_0000;
        if s >= 0x8000_0000 {
            m = s / 2;
            f = f * 2 + 1;
            proof {
                assert(spec_frac(old_m, (16 - i) as nat) == half + spec_frac(
                    m as int,
                    (15 - i) as nat,
                ));
                assert((2 * old_f + 1) * half == old_f * (2 * half) + half) by (nonlinear_arith);
            }
        } else {
            m = s;
            f = f * 2;
            proof {
                assert(spec_frac(old_m, (16 - i) as nat) == spec_frac(m as int, (15 - i) as nat));
                assert((2 * old_f) * half == old_f * (2 * half)) by (nonlinear_arith);
            }
        }
        i = i + 1;
    }
    proof {
        lemma2_to64();
        assert(pow2(0) == 1 && pow2(16) == 65536);
        assert(i == 16 && (16 - i) as nat == 0);
        let p = pow2((16 - i) as nat) as int;
        assert(f as int * p + spec_frac(m as int, (16 - i) as nat) == spec_frac(mant, 16));
        assert(p == 1);
        assert(spec_frac(m as int, 0) == 0);
        assert(f as int * p == f as int) by (nonlinear_arith)
            requires
                p == 1,
        ;
        assert(f as int == spec_frac(mant, 16));
        assert(e as int == spec_floor_log2(x as int));
        assert(mant == spec_mantissa(x as int));
        assert(spec_lg(x as int) == e as int * 65536 + f as int);
    }
    e * 65536 + f
}


/// The sum of a sequence of weights.
pub open spec fn seq_sum(s: Seq<u64>) -> int
    decreases s.len(),
{
    if s.len() == 0 {
        0
    } else {
        seq_sum(s.drop_last()) + s.last()
    }
}

/// How many entries of the sequence are positive: the number of non-empty
/// feedback groups of a distribution.
pub open spec fn count_pos(s: Seq<u64>) -> int
    decreases s.len(),
{
    if s.len() == 0 {
        0
    } else {
        count_pos(s.drop_last()) + if s.last() > 0 {
            1int
        } else {
            0int
        }
    }
}

/// The mass-weighted information of a distribution against a fixed total:
/// the sum, over the non-empty groups, of the group's mass times the
/// fixed-point difference between the total's and the group's logarithm.
pub open spec fn spec_ent_terms(dist: Seq<u64>, total: int) -> int
    decreases dist.len(),
{
    if dist.len() == 0 {
        0
    } else {
        spec_ent_terms(dist.drop_last(), total) + if dist.last() > 0 {
            (dist.last() as int) * (spec_lg(total) - spec_lg(dist.last() as int))
        } else {
            0int
        }
    }
}

/// The mass-weighted entropy of a distribution: `seq_sum(dist) * FIXED_ONE`
/// of this measure stand for one bit of Shannon entropy.
pub open spec fn spec_entropy(dist: Seq<u64>) -> int {
    spec_ent_terms(dist, seq_sum(dist))
}

/// Sums of weights are never negative.
pub proof fn lemma_seq_sum_nonneg(s: Seq<u64>)
    ensures
        seq_sum(s) >= 0,
    decreases s.len(),
{
    if s.len() > 0 {
        lemma_seq_sum_nonneg(s.drop_last());
    }
}

/// Every entry is at most the whole sum.
pub proof fn lemma_seq_sum_element(s: Seq<u64>, i: int)
    requires
        0 <= i < s.len(),
    ensures
        s[i] as int <= seq_sum(s),
    decreases s.len(),
{
    lemma_seq_sum_nonneg(s.drop_last());
    if i < s.len() - 1 {
        lemma_seq_sum_element(s.drop_last(), i);
    }
}

/// Two distinct entries together are at most the whole sum.
pub proof fn lemma_seq_sum_two_elements(s: Seq<u64>, i: int, j: int)
    requires
        0 <= i < j < s.len(),
    ensures
        s[i] as int + s[j] as int <= seq_sum(s),
    decreases s.len(),
{
    if j < s.len() - 1 {
        lemma_seq_sum_two_elements(s.drop_last(), i, j);
    } else {
        lemma_seq_sum_element(s.drop_last(), i);
    }
}

/// A prefix never sums to more than the whole.
pub proof fn lemma_seq_sum_take_le(s: Seq<u64>, i: int)
    requires
        0 <= i <= s.len(),
    ensures
        seq_sum(s.take(i)) <= seq_sum(s),
    decreases s.len(),
{
    if i == s.len() {
        assert(s.take(i) =~= s);
    } else {
        assert(s.drop_last().take(i) =~= s.take(i));
        lemma_seq_sum_take_le(s.drop_last(), i);
    }
}

/// The weighted information is non-negative and at most the total mass
/// times the logarithm of `total`.
pub proof fn lemma_ent_terms_bounds(dist: Seq<u64>, total: int)
    requires
        forall|i: int| 0 <= i < dist.len() ==> dist[i] as int <= total,
    ensures
        0 <= spec_ent_terms(dist, total),
        spec_ent_terms(dist, total) <= seq_sum(dist) * spec_lg(total),
    decreases dist.len(),
{
    lemma_lg_nonneg(total);
    if dist.len() == 0 {
    } else {
        let m = dist.last() as int;
        assert(forall|i: int|
            0 <= i < dist.drop_last().len() ==> dist.drop_last()[i] as int <= total);
        lemma_ent_terms_bounds(dist.drop_last(), total);
        lemma_seq_sum_nonneg(dist.drop_last());
        if m > 0 {
            lemma_lg_nonneg(m);
            lemma_lg_mono(m, total);
            lemma_mul_inequality(spec_lg(total) - spec_lg(m), spec_lg(total), m);
            assert(m * (spec_lg(total) - spec_lg(m)) >= 0) by (nonlinear_arith)
                requires
                    m > 0,
                    spec_lg(total) - spec_lg(m) >= 0,
            ;
            assert((spec_lg(total) - spec_lg(m)) * m == m * (spec_lg(total) - spec_lg(m)))
                by (nonlinear_arith);
            assert(spec_lg(total) * m == m * spec_lg(total)) by (nonlinear_arith);
            assert(seq_sum(dist) * spec_lg(total) == seq_sum(dist.drop_last()) * spec_lg(total) + m
                * spec_lg(total)) by (nonlinear_arith)
                requires
                    seq_sum(dist) == seq_sum(dist.drop_last()) + m,
            ;
        } else {
            assert(seq_sum(dist) == seq_sum(dist.drop_last()));
        }
    }
}

/// The weighted information is at least any single group's contribution.
pub proof fn lemma_ent_terms_ge_term(dist: Seq<u64>, total: int, k: int)
    requires
        0 <= k < dist.len(),
        forall|i: int| 0 <= i < dist.len() ==> dist[i] as int <= total,
        dist[k] > 0,
    ensures
        spec_ent_terms(dist, total) >= (dist[k] as int) * (spec_lg(total) - spec_lg(
            dist[k] as int,
        )),
    decreases dist.len(),
{
    assert(forall|i: int| 0 <= i < dist.drop_last().len() ==> dist.drop_last()[i] as int <= total);
    if k == dist.len() - 1 {
        lemma_ent_terms_bounds(dist.drop_last(), total);
    } else {
        lemma_ent_terms_ge_term(dist.drop_last(), total, k);
        let m = dist.last() as int;
        if m > 0 {
            lemma_lg_mono(m, total);
            assert(m * (spec_lg(total) - spec_lg(m)) >= 0) by (nonlinear_arith)
                requires
                    m > 0,
                    spec_lg(total) - spec_lg(m) >= 0,
            ;
        }
    }
}

/// With at most one non-empty group, every entry is either zero or the
/// whole total, and the weighted information vanishes.
proof fn lemma_ent_terms_degenerate(dist: Seq<u64>, total: int)
    requires
        forall|i: int| 0 <= i < dist.len() ==> dist[i] == 0 || dist[i] as int == total,
    ensures
        spec_ent_terms(dist, total) == 0,
    decreases dist.len(),
{
    if dist.len() > 0 {
        assert(forall|i: int|
            0 <= i < dist.drop_last().len() ==> dist.drop_last()[i] == 0 || dist.drop_last()[
                i
            ] as int == total);
        lemma_ent_terms_degenerate(dist.drop_last(), total);
    }
}

/// Counts of positive entries are never negative.
proof fn lemma_count_pos_nonneg(dist: Seq<u64>)
    ensures
        count_pos(dist) >= 0,
    decreases dist.len(),
{
    if dist.len() > 0 {
        lemma_count_pos_nonneg(dist.drop_last());
    }
}

/// With no positive entry the sum is zero.
proof fn lemma_count_pos_zero(dist: Seq<u64>)
    requires
        count_pos(dist) == 0,
    ensures
        seq_sum(dist) == 0,
    decreases dist.len(),
{
    if dist.len() > 0 {
        lemma_count_pos_nonneg(dist.drop_last());
        lemma_count_pos_zero(dist.drop_last());
    }
}

/// With exactly one positive entry, that entry carries the whole sum.
proof fn lemma_count_pos_one(dist: Seq<u64>)
    requires
        count_pos(dist) == 1,
    ensures
        forall|i: int| 0 <= i < dist.len() ==> dist[i] == 0 || dist[i] as int == seq_sum(dist),
    decreases dist.len(),
{
    if dist.len() > 0 {
        if dist.last() > 0 {
            lemma_count_pos_zero(dist.drop_last());
            assert forall|i: int|
                0 <= i < dist.len() implies dist[i] == 0 || dist[i] as int == seq_sum(dist) by {
                if i < dist.len() - 1 {
                    lemma_count_pos_zero_all(dist.drop_last(), i);
                }
            }
        } else {
            lemma_count_pos_one(dist.drop_last());
            assert forall|i: int|
                0 <= i < dist.len() implies dist[i] == 0 || dist[i] as int == seq_sum(dist) by {
                if i < dist.len() - 1 {
                    assert(dist.drop_last()[i] == dist[i]);
                }
            }
        }
    }
}

/// With no positive entry, every entry is zero.
proof fn lemma_count_pos_zero_all(dist: Seq<u64>, i: int)
    requires
        count_pos(dist) == 0,
        0 <= i < dist.len(),
    ensures
        dist[i] == 0,
    decreases dist.len(),
{
    lemma_count_pos_nonneg(dist.drop_last());
    if i < dist.len() - 1 {
        lemma_count_pos_zero_all(dist.drop_last(), i);
    }
}

/// With at least one positive entry there is a positive entry.
proof fn lemma_count_pos_witness(dist: Seq<u64>)
    requires
        count_pos(dist) >= 1,
    ensures
        exists|i: int| 0 <= i < dist.len() && dist[i] > 0,
    decreases dist.len(),
{
    if dist.len() > 0 {
        if dist.last() > 0 {
            assert(dist[dist.len() - 1] > 0);
        } else {
            lemma_count_pos_witness(dist.drop_last());
            let i = choose|i: int| 0 <= i < dist.drop_last().len() && dist.drop_last()[i] > 0;
            assert(dist[i] > 0);
        }
    }
}

/// With at least two positive entries there are two distinct ones.
proof fn lemma_count_pos_two_witnesses(dist: Seq<u64>)
    requires
        count_pos(dist) >= 2,
    ensures
        exists|i: int, j: int| 0 <= i < j < dist.len() && dist[i] > 0 && dist[j] > 0,
    decreases dist.len(),
{
    lemma_count_pos_nonneg(dist.drop_last());
    if dist.last() > 0 && count_pos(dist.drop_last()) >= 1 {
        lemma_count_pos_witness(dist.drop_last());
        let i = choose|i: int| 0 <= i < dist.drop_last().len() && dist.drop_last()[i] > 0;
        assert(dist[i] > 0 && dist[dist.len() - 1] > 0 && i < dist.len() - 1);
    } else {
        lemma_count_pos_two_witnesses(dist.drop_last());
        let (i, j) = choose|i: int, j: int|
            0 <= i < j < dist.drop_last().len() && dist.drop_last()[i] > 0 && dist.drop_last()[j]
                > 0;
        assert(dist[i] > 0 && dist[j] > 0);
    }
}

/// Entropy is non-negative.
///
/// One half of the entropy law: however a candidate set is split over the
/// feedback groups, the weighted entropy of the split is never negative.
pub proof fn lemma_entropy_nonneg(dist: Seq<u64>)
    ensures
        spec_entropy(dist) >= 0,
{
    assert forall|i: int| 0 <= i < dist.len() implies dist[i] as int <= seq_sum(dist) by {
        lemma_seq_sum_element(dist, i);
    }
    lemma_ent_terms_bounds(dist, seq_sum(dist));
}

/// Entropy vanishes exactly on uninformative distributions.
///
/// The other half of the entropy law: for a distribution with positive
/// total mass, the weighted entropy is zero if and only if a single
/// feedback group holds all the mass. (A candidate set of one word always
/// produces such a distribution, so its entropy is zero too.)
pub proof fn lemma_entropy_zero_iff(dist: Seq<u64>)
    requires
        seq_sum(dist) >= 1,
    ensures
        spec_entropy(dist) == 0 <==> count_pos(dist) == 1,
{
    let total = seq_sum(dist);
    assert forall|i: int| 0 <= i < dist.len() implies dist[i] as int <= total by {
        lemma_seq_sum_element(dist, i);
    }
    lemma_count_pos_nonneg(dist);
    if count_pos(dist) == 0 {
        lemma_count_pos_zero(dist);
    } else if count_pos(dist) == 1 {
        lemma_count_pos_one(dist);
        lemma_ent_terms_degenerate(dist, total);
    } else {
        // At least two non-empty groups: the smaller one holds at most half
        // the mass, so its contribution alone is at least one whole
        // fixed-point bit.
        lemma_count_pos_two_witnesses(dist);
        let (i, j) = choose|i: int, j: int|
            0 <= i < j < dist.len() && dist[i] > 0 && dist[j] > 0;
        lemma_seq_sum_two_elements(dist, i, j);
        let k = if dist[i] <= dist[j] {
            i
        } else {
            j
        };
        let m = dist[k] as int;
        assert(2 * m <= total);
        lemma_lg_mono(2 * m, total);
        lemma_lg_double(m);
        lemma_ent_terms_ge_term(dist, total, k);
        assert(m * (spec_lg(total) - spec_lg(m)) >= m * 65536) by (nonlinear_arith)
            requires
                m >= 1,
                spec_lg(total) - spec_lg(m) >= 65536,
        ;
    }
}

/// The mass-weighted entropy of a feedback distribution, in fixed point:
/// `seq_sum(dist) * FIXED_ONE` of it stand for one bit.
pub fn entropy_weighted(dist: &Vec<u64>) -> (r: u64)
    requires
        seq_sum(dist@) <= MASS_MAX,
    ensures
        r as int == spec_entropy(dist@),
{
    let n = dist.len();

    // Total mass of the distribution.
    let mut total: u64 = 0;
    let mut i: usize = 0;
    while i < n
        invariant
            i <= n == dist@.len(),
            seq_sum(dist@) <= MASS_MAX,
            total as int == seq_sum(dist@.take(i as int)),
            total <= MASS_MAX,
        decreases n - i,
    {
        proof {
            assert(dist@.take(i + 1).drop_last() =~= dist@.take(i as int));
            lemma_seq_sum_take_le(dist@, i + 1);
        }
        total = total + dist[i];
        i = i + 1;
    }
    proof {
        assert(dist@.take(n as int) =~= dist@);
    }

    if total == 0 {
        proof {
            assert forall|k: int| 0 <= k < dist@.len() implies dist@[k] as int <= 0 by {
                lemma_seq_sum_element(dist@, k);
            }
            lemma_ent_terms_bounds(dist@, 0);
            lemma_lg_nonneg(0);
            lemma_seq_sum_nonneg(dist@);
            assert(seq_sum(dist@) * spec_lg(0) == 0) by (nonlinear_arith)
                requires
                    spec_lg(0) == 0,
            ;
        }
        return 0;
    }

    let lt = lg_fixed(total);
    proof {
        lemma2_to64();
        assert(pow2(40) == 0x100_0000_0000) by {
            vstd::arithmetic::power2::lemma2_to64_rest();
        }
        lemma_lg_mono(total as int, MASS_MAX as int);
        lemma_lg_pow2(40);
        assert(spec_lg(MASS_MAX as int) == 40 * 65536);
    }

    // Accumulate the non-empty groups' contributions.
    let mut acc: u64 = 0;
    let mut j: usize = 0;
    while j < n
        invariant
            j <= n == dist@.len(),
            seq_sum(dist@) <= MASS_MAX,
            total as int == seq_sum(dist@),
            1 <= total <= MASS_MAX,
            lt as int == spec_lg(total as int),
            lt <= 40 * 65536,
            acc as int == spec_ent_terms(dist@.take(j as int), total as int),
            acc as int <= seq_sum(dist@.take(j as int)) * spec_lg(total as int),
        decreases n - j,
    {
        proof {
            assert(dist@.take(j + 1).drop_last() =~= dist@.take(j as int));
            lemma_seq_sum_take_le(dist@, j + 1);
            lemma_seq_sum_element(dist@, j as int);
            lemma_seq_sum_nonneg(dist@.take(j as int));
        }
        let m = dist[j];
        if m > 0 {
            let lm = lg_fixed(m);
            proof {
                lemma_lg_mono(m as int, total as int);
                lemma_lg_nonneg(m as int);
                assert(m as int * (lt as int - lm as int) <= m as int * lt as int)
                    by (nonlinear_arith)
                    requires
                        m > 0,
                        0 <= lm,
                ;
                assert(m as int * lt as int <= MASS_MAX as int * (40 * 65536)) by (nonlinear_arith)
                    requires
                        0 < m <= MASS_MAX,
                        0 <= lt <= 40 * 65536,
                ;
                assert(m as int * (lt as int - lm as int) >= 0) by (nonlinear_arith)
                    requires
                        m > 0,
                        lm <= lt,
                ;
                let pre = seq_sum(dist@.take(j as int));
                assert(pre * spec_lg(total as int) + m as int * lt as int <= (pre + m as int)
                    * spec_lg(total as int)) by (nonlinear_arith)
                    requires
                        lt as int == spec_lg(total as int),
                        0 <= lt,
                ;
                assert((pre + m as int) * spec_lg(total as int) <= MASS_MAX as int * (40 * 65536))
                    by (nonlinear_arith)
                    requires
                        0 <= pre + m as int <= MASS_MAX,
                        0 <= spec_lg(total as int) <= 40 * 65536,
                ;
            }
            acc = acc + m * (lt - lm);
        }
        j = j + 1;
    }
    proof {
        assert(dist@.take(n as int) =~= dist@);
    }
    acc
}


/// The sum of the weights selected by an index sequence.
pub open spec fn sum_at(weights: Seq<u64>, idxs: Seq<usize>) -> int
    decreases idxs.len(),
{
    if idxs.len() == 0 {
        0
    } else {
        sum_at(weights, idxs.drop_last()) + weights[idxs.last() as int]
    }
}

/// Selected sums are never negative.
pub proof fn lemma_sum_at_nonneg(weights: Seq<u64>, idxs: Seq<usize>)
    requires
        forall|j: int| 0 <= j < idxs.len() ==> (idxs[j] as int) < weights.len(),
    ensures
        sum_at(weights, idxs) >= 0,
    decreases idxs.len(),
{
    if idxs.len() > 0 {
        lemma_sum_at_nonneg(weights, idxs.drop_last());
    }
}

/// Strictly increasing indices below `bound` select at most the prefix sum.
pub proof fn lemma_sum_at_below(weights: Seq<u64>, idxs: Seq<usize>, bound: int)
    requires
        forall|j: int| 0 <= j < idxs.len() ==> (idxs[j] as int) < bound,
        forall|j1: int, j2: int| 0 <= j1 < j2 < idxs.len() ==> idxs[j1] < idxs[j2],
        0 <= bound <= weights.len(),
    ensures
        sum_at(weights, idxs) <= seq_sum(weights.take(bound)),
    decreases idxs.len(),
{
    if idxs.len() == 0 {
        lemma_seq_sum_nonneg(weights.take(bound));
    } else {
        let last = idxs.last() as int;
        let prev = idxs.drop_last();
        assert(forall|j: int| 0 <= j < prev.len() ==> prev[j] == idxs[j]);
        lemma_sum_at_below(weights, prev, last);
        assert(weights.take(last + 1).drop_last() =~= weights.take(last));
        assert(weights.take(last + 1).last() == weights[last]);
        assert(weights.take(bound).take(last + 1) =~= weights.take(last + 1));
        lemma_seq_sum_take_le(weights.take(bound), last + 1);
    }
}

/// Selecting strictly increasing indices never sums to more than the whole.
pub proof fn lemma_sum_at_increasing(weights: Seq<u64>, idxs: Seq<usize>)
    requires
        forall|j: int| 0 <= j < idxs.len() ==> (idxs[j] as int) < weights.len(),
        forall|j1: int, j2: int| 0 <= j1 < j2 < idxs.len() ==> idxs[j1] < idxs[j2],
    ensures
        sum_at(weights, idxs) <= seq_sum(weights),
{
    lemma_sum_at_below(weights, idxs, weights.len() as int);
    assert(weights.take(weights.len() as int) =~= weights);
}


/// A distribution within the mass bound has entropy below the fixed budget
/// that all score arithmetic relies on.
pub proof fn lemma_entropy_mass_bound(dist: Seq<u64>)
    requires
        seq_sum(dist) <= MASS_MAX,
    ensures
        0 <= spec_entropy(dist),
        spec_entropy(dist) <= MASS_MAX * (40 * 65536),
{
    let total = seq_sum(dist);
    assert forall|i: int| 0 <= i < dist.len() implies dist[i] as int <= total by {
        lemma_seq_sum_element(dist, i);
    }
    lemma_ent_terms_bounds(dist, total);
    lemma_seq_sum_nonneg(dist);
    lemma2_to64();
    assert(pow2(40) == 0x100_0000_0000) by {
        vstd::arithmetic::power2::lemma2_to64_rest();
    }
    lemma_lg_pow2(40);
    lemma_lg_nonneg(total);
    if total >= 1 {
        lemma_lg_mono(total, MASS_MAX as int);
    }
    assert(total * spec_lg(total) <= MASS_MAX * (40 * 65536)) by (nonlinear_arith)
        requires
            0 <= total <= MASS_MAX,
            0 <= spec_lg(total) <= 40 * 65536,
    ;
}


/// The entropy of a bounded distribution grows at most linearly with its
/// mass: each unit of mass contributes at most the 40-bit budget.
pub proof fn lemma_entropy_linear_bound(dist: Seq<u64>)
    requires
        seq_sum(dist) <= MASS_MAX,
    ensures
        0 <= spec_entropy(dist),
        spec_entropy(dist) <= seq_sum(dist) * (40 * 65536),
{
    let total = seq_sum(dist);
    assert forall|i: int| 0 <= i < dist.len() implies dist[i] as int <= total by {
        lemma_seq_sum_element(dist, i);
    }
    lemma_ent_terms_bounds(dist, total);
    lemma_seq_sum_nonneg(dist);
    lemma2_to64();
    assert(pow2(40) == 0x100_0000_0000) by {
        vstd::arithmetic::power2::lemma2_to64_rest();
    }
    lemma_lg_pow2(40);
    lemma_lg_nonneg(total);
    if total >= 1 {
        lemma_lg_mono(total, MASS_MAX as int);
    }
    assert(total * spec_lg(total) <= total * (40 * 65536)) by (nonlinear_arith)
        requires
            0 <= total,
            spec_lg(total) <= 40 * 65536,
    ;
}


/// A distribution whose only positive entry is at `k0` has exactly one
/// non-empty group.
pub proof fn lemma_count_pos_delta(s: Seq<u64>, k0: int)
    requires
        0 <= k0 < s.len(),
        s[k0] > 0,
        forall|k: int| 0 <= k < s.len() && k != k0 ==> s[k] == 0,
    ensures
        count_pos(s) == 1,
    decreases s.len(),
{
    if k0 == s.len() - 1 {
        lemma_count_pos_zero_from_entries(s.drop_last());
    } else {
        lemma_count_pos_delta(s.drop_last(), k0);
    }
}

/// A distribution with no positive entry has no non-empty group.
proof fn lemma_count_pos_zero_from_entries(s: Seq<u64>)
    requires
        forall|k: int| 0 <= k < s.len() ==> s[k] == 0,
    ensures
        count_pos(s) == 0,
    decreases s.len(),
{
    if s.len() > 0 {
        lemma_count_pos_zero_from_entries(s.drop_last());
    }
}

} // verus!
