//! Rounding to a fixed number of significant binary digits, which is what a
//! binary floating-point operation does to its exact result.

use vstd::prelude::*;
use vstd::arithmetic::power2::pow2;
#[allow(unused_imports)]
use vstd::arithmetic::power2::{lemma_pow2_adds, lemma_pow2_pos, lemma_pow2_strictly_increases, lemma_pow2_unfold, lemma2_to64};
#[allow(unused_imports)]
use vstd::arithmetic::div_mod::{lemma_div_denominator, lemma_fundamental_div_mod, lemma_mod_bound};

verus! {

/// How often `v` has to be halved (rounding down) to come below `limit`.
pub open spec fn excess_bits(v: nat, limit: nat) -> nat
    decreases v,
{
    if v < limit || limit == 0 {
        0
    } else {
        1 + excess_bits(v / 2, limit)
    }
}

/// The multiple of `q` nearest to `v`; of two equally near ones, the even multiple.
pub open spec fn nearest_multiple(v: nat, q: nat) -> nat {
    let low = v / q;
    let rest = v % q;
    if 2 * rest < q || (2 * rest == q && low % 2 == 0) {
        low * q
    } else {
        (low + 1) * q
    }
}

/// `v` rounded to `bits` significant binary digits, to nearest, ties to even.
pub open spec fn significant(v: nat, bits: nat) -> nat {
    nearest_multiple(v, pow2(excess_bits(v, pow2(bits))))
}

/// The scale at which `v` fills at most `bits` digits is the power of two that
/// `significant` rounds to a multiple of.
proof fn lemma_excess_is_scale(v: nat, limit: nat, s: nat)
    requires
        limit > 0,
        v < limit * pow2(s),
    ensures
        excess_bits(v, limit) <= s,
    decreases s,
{
    if v >= limit {
        if s == 0 {
            lemma2_to64();
            assert(limit * pow2(0) == limit) by (nonlinear_arith)
                requires pow2(0) == 1;
        } else {
            lemma_pow2_unfold(s);
            let t = (s - 1) as nat;
            assert(limit * pow2(s) == 2 * (limit * pow2(t))) by (nonlinear_arith)
                requires pow2(s) == 2 * pow2(t);
            lemma_excess_is_scale(v / 2, limit, t);
        }
    }
}

proof fn lemma_nearest_multiple_error(v: nat, q: nat)
    requires
        q > 0,
    ensures
        2 * nearest_multiple(v, q) <= 2 * v + q,
        2 * v <= 2 * nearest_multiple(v, q) + q,
{
    lemma_fundamental_div_mod(v as int, q as int);
    lemma_mod_bound(v as int, q as int);
    let low = v / q;
    assert(q * low == low * q) by (nonlinear_arith);
    assert((low + 1) * q == low * q + q) by (nonlinear_arith);
}

/// Rounding `v` below `2^(bits + s)` to `bits` digits moves it by at most half of `2^s`.
pub proof fn lemma_significant_error(v: nat, bits: nat, s: nat)
    requires
        v < pow2(bits + s),
    ensures
        2 * significant(v, bits) <= 2 * v + pow2(s),
        2 * v <= 2 * significant(v, bits) + pow2(s),
{
    lemma_pow2_pos(bits);
    lemma_pow2_adds(bits, s);
    let e = excess_bits(v, pow2(bits));
    lemma_excess_is_scale(v, pow2(bits), s);
    lemma_pow2_pos(e);
    lemma_nearest_multiple_error(v, pow2(e));
    if e < s {
        lemma_pow2_strictly_increases(e, s);
    }
}

/// Rounds `v` to `bits` significant binary digits.
pub fn round_significant(v: u64, bits: u32) -> (r: u128)
    requires
        bits < 64,
    ensures
        r == significant(v as nat, bits as nat),
        r <= 2 * v,
{
    let wide: u128 = v as u128;
    let limit: u128 = power_of_two(bits);
    let mut q: u128 = 1;
    let ghost mut s: nat = 0;
    let ghost total = excess_bits(v as nat, limit as nat);
    proof {
        lemma2_to64();
        lemma_pow2_pos(bits as nat);
        assert(v / 1 == v);
    }
    while wide / q >= limit
        invariant
            wide == v,
            limit == pow2(bits as nat),
            limit > 0,
            q == pow2(s),
            q > 0,
            q <= 2 * wide || q == 1,
            total == excess_bits(v as nat, limit as nat),
            total == s + excess_bits((v as nat) / (q as nat), limit as nat),
        decreases excess_bits((v as nat) / (q as nat), limit as nat),
    {
        proof {
            lemma_pow2_unfold(s + 1);
            lemma_div_denominator(v as int, q as int, 2);
            assert((v as int) / (q as int) / 2 == (v as int) / (q * 2));
            lemma_fundamental_div_mod(v as int, q as int);
            lemma_mod_bound(v as int, q as int);
            let low = (v as int) / (q as int);
            assert(q <= wide) by (nonlinear_arith)
                requires
                    wide == q * low + (v as int) % (q as int),
                    (v as int) % (q as int) >= 0,
                    low >= 1,
                    q > 0,
            ;
            s = s + 1;
        }
        q = q * 2;
    }
    let low: u128 = wide / q;
    let rest: u128 = wide % q;
    proof {
        lemma_fundamental_div_mod(v as int, q as int);
        lemma_mod_bound(v as int, q as int);
        assert(q * low == low * q) by (nonlinear_arith);
        assert((low + 1) * q == low * q + q) by (nonlinear_arith);
        assert(s == total);
    }
    if 2 * rest < q || (2 * rest == q && low % 2 == 0) {
        low * q
    } else {
        (low + 1) * q
    }
}

/// The power of two with the given exponent.
pub fn power_of_two(exponent: u32) -> (r: u128)
    requires
        exponent < 128,
    ensures
        r == pow2(exponent as nat),
{
    let mut r: u128 = 1;
    let mut i: u32 = 0;
    proof {
        lemma2_to64();
    }
    while i < exponent
        invariant
            i <= exponent,
            exponent < 128,
            r == pow2(i as nat),
        decreases exponent - i,
    {
        proof {
            lemma_pow2_unfold((i + 1) as nat);
            lemma2_to64();
            vstd::arithmetic::power2::lemma2_to64_rest();
            lemma_pow2_adds(64, 63);
            if i + 1 < 127 {
                lemma_pow2_strictly_increases((i + 1) as nat, 127);
            }
        }
        r = r * 2;
        i = i + 1;
    }
    r
}

/// Rounding goes to a nearest multiple: none is nearer, and where two are equally near
/// it is the one that is an even number of times the unit.
pub proof fn lemma_nearest(v: nat, q: nat, times: nat)
    requires
        q > 0,
    ensures
        ({
            let rounded = nearest_multiple(v, q) as int;
            let error = if rounded > v { rounded - v } else { v - rounded };
            let other = (times * q) as int;
            let distance = if other > v { other - v } else { v - other };
            &&& error <= distance
            &&& error == distance && other != rounded ==> exists|even: int|
                #[trigger] (even * 2) * q == rounded
        }),
{
    let low = (v / q) as int;
    let rest = (v % q) as int;
    let n = times as int;
    let unit = q as int;
    lemma_fundamental_div_mod(v as int, unit);
    lemma_mod_bound(v as int, unit);
    assert(unit * low == low * unit && (low + 1) * unit == low * unit + unit) by (nonlinear_arith);
    assert(n <= low ==> n * unit <= low * unit) by (nonlinear_arith)
        requires
            unit > 0,
    ;
    assert(n >= low + 1 ==> n * unit >= low * unit + unit) by (nonlinear_arith)
        requires
            unit > 0,
    ;
    assert(n < low ==> n * unit <= low * unit - unit) by (nonlinear_arith)
        requires
            unit > 0,
    ;
    assert(n > low + 1 ==> n * unit >= low * unit + 2 * unit) by (nonlinear_arith)
        requires
            unit > 0,
    ;
    let rounded = nearest_multiple(v, q) as int;
    if 2 * rest == unit {
        if low % 2 == 0 {
            assert((low / 2 * 2) * unit == rounded);
        } else {
            assert(((low + 1) / 2 * 2) * unit == rounded);
        }
    }
}

/// The unit that is rounded to is the smallest power of two that leaves few enough
/// digits.
pub proof fn lemma_unit_is_smallest(v: nat, bits: nat, s: nat)
    ensures
        v < pow2(bits + s) ==> excess_bits(v, pow2(bits)) <= s,
        v >= pow2(bits + s) ==> excess_bits(v, pow2(bits)) > s,
    decreases s,
{
    lemma_pow2_pos(bits);
    lemma_pow2_adds(bits, s);
    let limit = pow2(bits);
    if v < pow2(bits + s) {
        lemma_excess_is_scale(v, limit, s);
    } else {
        lemma_pow2_pos(s);
        assert(v >= limit) by (nonlinear_arith)
            requires
                v >= limit * pow2(s),
                pow2(s) >= 1,
        ;
        if s > 0 {
            let t = (s - 1) as nat;
            lemma_pow2_unfold(s);
            lemma_pow2_adds(bits, t);
            assert(limit * pow2(s) == 2 * (limit * pow2(t))) by (nonlinear_arith)
                requires
                    pow2(s) == 2 * pow2(t),
            ;
            lemma_unit_is_smallest(v / 2, bits, t);
        }
    }
}

} // verus!
