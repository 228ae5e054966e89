//! Rounding to IEEE 754 binary32 precision, carried out on integers.
//!
//! A positive binary32 value is `significand * 2^exponent` with a significand
//! of 24 binary digits. The functions here find the value of that form nearest
//! to a quotient of two natural numbers, the even significand on a tie, and
//! take its integer part.
//!
//! Binary32 bounds the exponent; this module does not. For the integer part,
//! saturated at a bound below `2^128`, that makes no difference: what is too
//! small for a normal binary32 value is below one by either rounding, and
//! what is too large saturates by either.

use vstd::prelude::*;
use vstd::arithmetic::div_mod::{
    lemma_basic_div,
    lemma_div_is_ordered,
    lemma_div_multiples_vanish,
    lemma_fundamental_div_mod,
    lemma_fundamental_div_mod_converse,
};
use vstd::arithmetic::power2::{
    lemma2_to64,
    lemma2_to64_rest,
    lemma_pow2_adds,
    lemma_pow2_pos,
    lemma_pow2_strictly_increases,
    lemma_pow2_subtracts,
    lemma_pow2_unfold,
    pow2,
};

verus! {

/// The number of binary digits of `n`; none for zero.
pub open spec fn bit_length(n: nat) -> nat
    decreases n,
{
    if n == 0 {
        0
    } else {
        1 + bit_length(n / 2)
    }
}

/// `n * 2^e` for a positive `e`, and `n` itself otherwise.
pub open spec fn lift(n: nat, e: int) -> nat {
    if e > 0 {
        n * pow2(e as nat)
    } else {
        n
    }
}

/// The integer part of `n * 2^e`.
pub open spec fn scale(n: nat, e: int) -> nat {
    if e >= 0 {
        n * pow2(e as nat)
    } else {
        n / pow2((-e) as nat)
    }
}

/// The integer nearest to `num / den`, the even one of two equally near.
pub open spec fn nearest_even(num: nat, den: nat) -> nat {
    let q = num / den;
    let r = num % den;
    if 2 * r > den || (2 * r == den && q % 2 == 1) {
        q + 1
    } else {
        q
    }
}

/// The exponent `e` with `2^e <= num / den < 2^(e + 1)`, for positive `num`
/// and `den`. The difference of the bit lengths is `e` or `e + 1`.
pub open spec fn binade(num: nat, den: nat) -> int {
    let d = bit_length(num) - bit_length(den);
    if lift(den, d) <= lift(num, -d) {
        d
    } else {
        d - 1
    }
}

/// The significand of the binary32 value nearest to `num / den`:
/// `num / den * 2^(23 - binade)`, which lies between `2^23` and `2^24`,
/// rounded to the nearest integer.
pub open spec fn significand(num: nat, den: nat) -> nat {
    let s = 23 - binade(num, den);
    nearest_even(lift(num, s), lift(den, -s))
}

/// The integer part of the binary32 value nearest to `num / den * 2^shift`.
/// A factor `2^shift` moves the exponent and leaves the significand.
pub open spec fn single_floor(num: nat, den: nat, shift: int) -> nat {
    if num == 0 {
        0
    } else {
        scale(significand(num, den), binade(num, den) - 23 + shift)
    }
}

/// `2^k` as a machine integer.
pub fn pow2_u128(k: u32) -> (p: u128)
    requires
        k < 128,
    ensures
        p == pow2(k as nat),
{
    let mut p: u128 = 1;
    let mut i: u32 = 0;
    proof {
        lemma2_to64();
    }
    while i < k
        invariant
            i <= k < 128,
            p == pow2(i as nat),
        decreases k - i,
    {
        proof {
            lemma_pow2_unfold((i + 1) as nat);
            lemma_pow2_128();
            lemma_pow2_strictly_increases((i + 1) as nat, 128);
        }
        p = p * 2;
        i = i + 1;
    }
    p
}

/// The bit length of a machine integer.
pub fn bit_length_u128(n: u128) -> (len: u32)
    ensures
        len == bit_length(n as nat),
        len <= 128,
{
    let mut rest: u128 = n;
    let mut len: u32 = 0;
    proof {
        lemma_bit_length_bounds(n as nat);
        lemma_pow2_128();
        if bit_length(n as nat) > 128 {
            lemma_pow2_strictly_increases(128, (bit_length(n as nat) - 1) as nat);
        }
    }
    while rest > 0
        invariant
            len + bit_length(rest as nat) == bit_length(n as nat),
            bit_length(n as nat) <= 128,
        decreases rest,
    {
        rest = rest / 2;
        len = len + 1;
    }
    len
}

/// `lift` on machine integers.
fn lift_u128(n: u128, e: i32) -> (r: u128)
    requires
        e < 128,
        lift(n as nat, e as int) <= u128::MAX,
    ensures
        r == lift(n as nat, e as int),
{
    if e > 0 {
        let p = pow2_u128(e as u32);
        n * p
    } else {
        n
    }
}

/// The significand and the binade of the binary32 value nearest to
/// `num / den`.
pub fn nearest_single(num: u128, den: u128) -> (r: (u32, i32))
    requires
        0 < num < 0x10_0000_0000_0000_0000_0000_0000,
        0 < den <= u64::MAX,
    ensures
        r.0 == significand(num as nat, den as nat),
        r.1 == binade(num as nat, den as nat),
        -64 <= r.1 < 100,
{
    let ln = bit_length_u128(num);
    let ld = bit_length_u128(den);
    proof {
        lemma_pow2_128();
        lemma_pow2_100();
        lemma2_to64();
        lemma_bit_length_at_most(num as nat, 100);
        lemma_bit_length_at_most(den as nat, 64);
        lemma_bit_length_bounds(num as nat);
        lemma_bit_length_bounds(den as nat);
        lemma_pow2_monotone(ln as nat, 100);
        lemma_pow2_monotone(ld as nat, 64);
        lemma_pow2_strictly_increases(100, 128);
        lemma_pow2_strictly_increases(64, 128);
    }
    let d: i32 = ln as i32 - ld as i32;
    proof {
        lemma_lift_range(den as nat, ld as nat, d as int);
        lemma_lift_range(num as nat, ln as nat, -d as int);
    }
    let lhs = lift_u128(den, d);
    let rhs = lift_u128(num, -d);
    let e: i32 = if lhs <= rhs {
        d
    } else {
        d - 1
    };
    let s: i32 = 23 - e;
    proof {
        lemma_lift_range(num as nat, ln as nat, s as int);
        lemma_lift_range(den as nat, ld as nat, -s as int);
        if s > 0 {
            lemma_pow2_monotone((ln + s) as nat, 127);
        } else if s < 0 {
            lemma_pow2_monotone((ld - s) as nat, 126);
        }
        lemma_pow2_strictly_increases(126, 127);
        lemma_pow2_strictly_increases(127, 128);
        lemma_pow2_unfold(127);
        lemma_pow2_unfold(128);
        lemma_scaled_quotient_range(num as nat, den as nat);
        lemma_significand_range(num as nat, den as nat);
        lemma2_to64();
    }
    let n = lift_u128(num, s);
    let dd = lift_u128(den, -s);
    let q = n / dd;
    let r = n % dd;
    let sig = if 2 * r > dd || (2 * r == dd && q % 2 == 1) {
        q + 1
    } else {
        q
    };
    (sig as u32, e)
}

/// The integer part of `sig * 2^e`.
pub fn floor_scaled(sig: u32, e: i32) -> (r: u128)
    requires
        sig <= 0x100_0000,
        e <= 100,
    ensures
        r == scale(sig as nat, e as int),
{
    proof {
        lemma2_to64();
        lemma_pow2_128();
        lemma_pow2_strictly_increases(124, 128);
    }
    if e >= 0 {
        proof {
            lemma_scale_at_most(sig as nat, 24, e as int);
            lemma_pow2_monotone((24 + e) as nat, 124);
        }
        let p = pow2_u128(e as u32);
        sig as u128 * p
    } else if e <= -25 {
        proof {
            lemma_pow2_strictly_increases(24, 25);
            lemma_scale_vanishes(sig as nat, 25, e as int);
        }
        0
    } else {
        proof {
            lemma_pow2_pos((-e) as nat);
        }
        let p = pow2_u128((-e) as u32);
        sig as u128 / p
    }
}

/// The binary32 value nearest to the natural number `n`, which is a natural
/// number too.
pub fn single_of_nat(n: u128) -> (r: u128)
    requires
        n < 0x10_0000_0000_0000_0000_0000_0000,
    ensures
        r == single_floor(n as nat, 1, 0),
{
    if n == 0 {
        0
    } else {
        proof {
            lemma2_to64();
            lemma_pow2_100();
        }
        let (sig, e) = nearest_single(n, 1);
        proof {
            lemma_significand_range(n as nat, 1);
        }
        floor_scaled(sig, e - 23)
    }
}

/// A number of `k` binary digits lies from `2^(k - 1)` up to `2^k`.
pub proof fn lemma_bit_length_bounds(n: nat)
    ensures
        n < pow2(bit_length(n)),
        n > 0 ==> bit_length(n) >= 1 && pow2((bit_length(n) - 1) as nat) <= n,
    decreases n,
{
    if n == 0 {
        lemma_pow2_pos(0);
    } else {
        lemma_bit_length_bounds(n / 2);
        lemma_pow2_unfold(bit_length(n));
        if n / 2 == 0 {
            lemma2_to64();
        } else {
            lemma_pow2_unfold(bit_length(n / 2));
        }
    }
}

/// A number below `2^k` has at most `k` binary digits.
pub proof fn lemma_bit_length_at_most(n: nat, k: nat)
    requires
        n < pow2(k),
    ensures
        bit_length(n) <= k,
{
    lemma_bit_length_bounds(n);
    if bit_length(n) > k {
        lemma_pow2_monotone(k, (bit_length(n) - 1) as nat);
    }
}

/// `nearest_even` is no more than one half away from the quotient.
pub proof fn lemma_nearest_even_is_nearest(num: nat, den: nat)
    requires
        den > 0,
    ensures
        2 * (nearest_even(num, den) * den - num) <= den,
        2 * (num - nearest_even(num, den) * den) <= den,
{
    lemma_fundamental_div_mod(num as int, den as int);
    let q = num / den;
    let r = num % den;
    assert(0 <= r < den) by (nonlinear_arith)
        requires
            r == num % den,
            den > 0,
    ;
    assert((q + 1) * den == den * q + den) by (nonlinear_arith);
    assert(q * den == den * q) by (nonlinear_arith);
}

/// The binade `e` of a quotient encloses it: `2^e <= num / den < 2^(e + 1)`,
/// each side multiplied out.
pub proof fn lemma_binade_bounds(num: nat, den: nat)
    requires
        num > 0,
        den > 0,
    ensures
        lift(den, binade(num, den)) <= lift(num, -binade(num, den)),
        lift(num, -(binade(num, den) + 1)) < lift(den, binade(num, den) + 1),
        bit_length(num) - bit_length(den) - 1 <= binade(num, den) <= bit_length(num)
            - bit_length(den),
{
    let ln = bit_length(num);
    let ld = bit_length(den);
    let d = ln - ld;
    lemma_bit_length_bounds(num);
    lemma_bit_length_bounds(den);
    if lift(den, d) <= lift(num, -d) {
        lemma_lift_range(den, ld, d + 1);
        lemma_lift_range(num, ln, -(d + 1));
    } else {
        lemma_lift_range(den, ld, d - 1);
        lemma_lift_range(num, ln, 1 - d);
    }
}

/// Scaled to its binade, a quotient lies from `2^23` up to `2^24`.
pub proof fn lemma_scaled_quotient_range(num: nat, den: nat)
    requires
        num > 0,
        den > 0,
    ensures
        lift(den, binade(num, den) - 23) > 0,
        pow2(23) * lift(den, binade(num, den) - 23) <= lift(num, 23 - binade(num, den)),
        lift(num, 23 - binade(num, den)) < pow2(24) * lift(den, binade(num, den) - 23),
{
    let e = binade(num, den);
    let d = lift(den, e - 23);
    lemma_binade_bounds(num, den);
    lemma2_to64();
    if e <= 0 {
        lemma_pow2_pos((23 - e) as nat);
        if e < 0 {
            lemma_pow2_adds((-e) as nat, 23);
            assert(pow2(23) * den <= num * (pow2((-e) as nat) * pow2(23))) by (nonlinear_arith)
                requires
                    den <= num * pow2((-e) as nat),
            ;
        } else {
            assert(pow2(23) * den <= num * pow2(23)) by (nonlinear_arith)
                requires
                    den <= num,
            ;
        }
        if e < -1 {
            lemma_pow2_adds((-e - 1) as nat, 24);
            assert(num * (pow2((-e - 1) as nat) * pow2(24)) < pow2(24) * den)
                by (nonlinear_arith)
                requires
                    num * pow2((-e - 1) as nat) < den,
                    pow2(24) > 0,
            ;
        } else if e == -1 {
            assert(num * pow2(24) < pow2(24) * den) by (nonlinear_arith)
                requires
                    num < den,
                    pow2(24) > 0,
            ;
        } else {
            assert(num * pow2(23) < pow2(24) * den) by (nonlinear_arith)
                requires
                    num < den * 2,
                    pow2(24) == 2 * pow2(23),
                    pow2(23) > 0,
            ;
        }
    } else if e < 23 {
        lemma_pow2_adds(e as nat, (23 - e) as nat);
        lemma_pow2_adds((e + 1) as nat, (23 - e) as nat);
        lemma_pow2_pos((23 - e) as nat);
        assert(pow2(e as nat) * pow2((23 - e) as nat) * den <= num * pow2((23 - e) as nat))
            by (nonlinear_arith)
            requires
                den * pow2(e as nat) <= num,
        ;
        assert(num * pow2((23 - e) as nat) < pow2((e + 1) as nat) * pow2((23 - e) as nat) * den)
            by (nonlinear_arith)
            requires
                num < den * pow2((e + 1) as nat),
                pow2((23 - e) as nat) > 0,
        ;
    } else {
        lemma_pow2_pos((e - 23) as nat);
        lemma_pow2_adds((e - 23) as nat, 23);
        lemma_pow2_adds((e - 23) as nat, 24);
        if e == 23 {
            assert(pow2(23) * den == den * pow2(23)) by (nonlinear_arith);
            assert(pow2(24) * den == den * pow2(24)) by (nonlinear_arith);
        } else {
            assert(pow2(23) * (den * pow2((e - 23) as nat)) == den * (pow2((e - 23) as nat) * pow2(
                23,
            ))) by (nonlinear_arith);
            assert(pow2(24) * (den * pow2((e - 23) as nat)) == den * (pow2((e - 23) as nat) * pow2(
                24,
            ))) by (nonlinear_arith);
            assert(d > 0) by (nonlinear_arith)
                requires
                    d == den * pow2((e - 23) as nat),
                    den > 0,
                    pow2((e - 23) as nat) > 0,
            ;
        }
    }
}

/// A significand has 24 binary digits, or is `2^24` after rounding up.
pub proof fn lemma_significand_range(num: nat, den: nat)
    requires
        num > 0,
        den > 0,
    ensures
        pow2(23) <= significand(num, den) <= pow2(24),
{
    let e = binade(num, den);
    let n = lift(num, 23 - e);
    let d = lift(den, e - 23);
    lemma_scaled_quotient_range(num, den);
    lemma_div_between(pow2(23) as int, n as int, pow2(24) as int, d as int);
}

/// Scaling by `2^e` takes numbers up to `2^k` to numbers up to `2^(k + e)`.
pub proof fn lemma_scale_at_most(n: nat, k: nat, e: int)
    requires
        n <= pow2(k),
        k + e >= 0,
    ensures
        scale(n, e) <= pow2((k + e) as nat),
{
    if e >= 0 {
        lemma_pow2_adds(k, e as nat);
        lemma_pow2_pos(e as nat);
        assert(n * pow2(e as nat) <= pow2(k) * pow2(e as nat)) by (nonlinear_arith)
            requires
                n <= pow2(k),
        ;
    } else {
        lemma_pow2_pos((-e) as nat);
        lemma_pow2_subtracts((-e) as nat, k);
        lemma_div_is_ordered(n as int, pow2(k) as int, pow2((-e) as nat) as int);
    }
}

/// Scaling by `2^e` takes numbers from `2^k` on to numbers from `2^(k + e)` on.
pub proof fn lemma_scale_at_least(n: nat, k: nat, e: int)
    requires
        n >= pow2(k),
        k + e >= 0,
    ensures
        scale(n, e) >= pow2((k + e) as nat),
{
    if e >= 0 {
        lemma_pow2_adds(k, e as nat);
        lemma_pow2_pos(e as nat);
        assert(n * pow2(e as nat) >= pow2(k) * pow2(e as nat)) by (nonlinear_arith)
            requires
                n >= pow2(k),
        ;
    } else {
        lemma_pow2_pos((-e) as nat);
        lemma_pow2_subtracts((-e) as nat, k);
        lemma_div_is_ordered(pow2(k) as int, n as int, pow2((-e) as nat) as int);
    }
}

/// Scaling a number below `2^k` by `2^-k` or less leaves nothing.
pub proof fn lemma_scale_vanishes(n: nat, k: nat, e: int)
    requires
        n < pow2(k),
        k + e <= 0,
    ensures
        scale(n, e) == 0,
{
    lemma_pow2_monotone(k, (-e) as nat);
    if e == 0 {
        lemma2_to64();
    } else {
        lemma_basic_div(n as int, pow2((-e) as nat) as int);
    }
}

/// The binade of a natural number is one less than its bit length.
pub proof fn lemma_binade_of_nat(n: nat)
    requires
        n > 0,
    ensures
        binade(n, 1) == bit_length(n) - 1,
{
    lemma_bit_length_bounds(n);
    assert(bit_length(1) == 1) by {
        reveal_with_fuel(bit_length, 2);
    }
}

/// A natural number of at most 24 binary digits is a binary32 value.
pub proof fn lemma_single_of_small_nat(n: nat)
    requires
        n < pow2(24),
    ensures
        single_floor(n, 1, 0) == n,
{
    if n > 0 {
        lemma_binade_of_nat(n);
        lemma_bit_length_at_most(n, 24);
        lemma2_to64();
        let s = 24 - bit_length(n);
        if s > 0 {
            lemma_pow2_pos(s as nat);
            lemma_div_multiples_vanish(n as int, pow2(s as nat) as int);
            assert(n * pow2(s as nat) == pow2(s as nat) * n) by (nonlinear_arith);
        } else {
            assert(n * pow2(0) == n) by (nonlinear_arith)
                requires
                    pow2(0) == 1,
            ;
        }
    }
}

/// The binary32 value nearest to a natural number is a significand of up to
/// 24 binary digits, or `2^24`, times a power of two. Returns the two.
pub proof fn lemma_single_of_nat_digits(n: nat) -> (digits: (nat, nat))
    ensures
        single_floor(n, 1, 0) == digits.0 * pow2(digits.1),
        digits.0 <= pow2(24),
{
    lemma2_to64();
    if n < pow2(24) {
        lemma_single_of_small_nat(n);
        assert(n * pow2(0) == n) by (nonlinear_arith)
            requires
                pow2(0) == 1,
        ;
        (n, 0)
    } else {
        lemma_binade_of_nat(n);
        lemma_bit_length_bounds(n);
        if bit_length(n) <= 24 {
            lemma_pow2_monotone(bit_length(n), 24);
        }
        lemma_significand_range(n, 1);
        (significand(n, 1), (bit_length(n) - 24) as nat)
    }
}

/// Rounding a natural number to binary32 keeps it at or above the power of
/// two at the bottom of its binade.
pub proof fn lemma_single_of_nat_at_least(n: nat)
    requires
        n > 0,
    ensures
        single_floor(n, 1, 0) >= pow2((bit_length(n) - 1) as nat),
{
    lemma_binade_of_nat(n);
    lemma_bit_length_bounds(n);
    lemma_significand_range(n, 1);
    lemma_scale_at_least(significand(n, 1), 23, bit_length(n) - 24);
}

/// The nearest binary32 value to a natural number below `2^k` is at most `2^k`.
pub proof fn lemma_single_of_nat_at_most(n: nat, k: nat)
    requires
        n < pow2(k),
    ensures
        single_floor(n, 1, 0) <= pow2(k),
{
    if n > 0 {
        lemma_bit_length_at_most(n, k);
        lemma_binade_bounds(n, 1);
        lemma_significand_range(n, 1);
        assert(bit_length(1) == 1) by {
            reveal_with_fuel(bit_length, 2);
        }
        let e = binade(n, 1);
        lemma_bit_length_bounds(n);
        lemma_scale_at_most(significand(n, 1), 24, e - 23);
        lemma_pow2_monotone((e + 1) as nat, k);
    }
}

/// The nearest binary32 value to `num / (den * 2^x)` is one or more just when
/// the quotient is `1 - 2^-25` or more: from there on it rounds to one.
pub proof fn lemma_single_floor_positive(num: nat, den: nat, x: int)
    requires
        num > 0,
        den > 0,
    ensures
        single_floor(num, den, -x) >= 1 <==> num * lift(1, -x) * 0x200_0000 >= 0x1FF_FFFF * lift(
            den,
            x,
        ),
{
    let e = binade(num, den);
    let sig = significand(num, den);
    let px = positive_part(x);
    let nx = positive_part(-x);
    let u = num * pow2(nx);
    let v = den * pow2(px);
    lemma2_to64();
    lemma_binade_bounds(num, den);
    lemma_significand_range(num, den);
    lemma_lift_is_product(1, -x);
    lemma_lift_is_product(den, x);
    lemma_lift_is_product(den, e);
    lemma_lift_is_product(num, -e);
    lemma_lift_is_product(num, -(e + 1));
    lemma_lift_is_product(den, e + 1);
    assert(1 * pow2(nx) == pow2(nx)) by (nonlinear_arith);
    assert(num * lift(1, -x) == u);
    assert(lift(den, x) == v);
    if e - x >= 0 {
        lemma_shift_keeps_order(den, positive_part(e), num, positive_part(-e), px, nx);
        lemma_scale_at_least(sig, 23, e - 23 - x);
        lemma_pow2_pos((e - x) as nat);
    } else if e - x <= -2 {
        lemma_shift_keeps_order(
            num,
            positive_part(-(e + 1)),
            den,
            positive_part(e + 1),
            nx + 1,
            px,
        );
        lemma_pow2_unfold(nx + 1);
        assert(num * pow2(nx + 1) == 2 * u) by (nonlinear_arith)
            requires
                pow2(nx + 1) == 2 * pow2(nx),
                u == num * pow2(nx),
        ;
        lemma_pow2_pos(px);
        assert(v > 0) by (nonlinear_arith)
            requires
                v == den * pow2(px),
                den > 0,
                pow2(px) > 0,
        ;
        lemma_pow2_strictly_increases(24, 25);
        lemma_scale_vanishes(sig, 25, e - 23 - x);
    } else {
        let a = positive_part(24 - x);
        let c = positive_part(x - 24);
        let n = lift(num, 23 - e);
        let d = lift(den, e - 23);
        lemma_lift_is_product(num, 24 - x);
        lemma_lift_is_product(den, x - 24);
        lemma_scaled_quotient_range(num, den);
        lemma_rounds_up_to_next_binade(n, d);
        // the result is one for the significand 2^24, and zero below it
        if sig < 0x100_0000 {
            lemma_basic_div(sig as int, 0x100_0000);
        }
        assert(single_floor(num, den, -x) == sig / 0x100_0000);
        // both conditions compare the same two numbers, at other scales
        let big = (0x1FF_FFFF * den) as nat;
        lemma_pow2_unfold(a + 1);
        lemma_pow2_adds(nx, 25);
        assert(0x1FF_FFFF * d == big * pow2(c)) by (nonlinear_arith)
            requires
                d == den * pow2(c),
                big == 0x1FF_FFFF * den,
        ;
        assert(2 * n == num * pow2(a + 1)) by (nonlinear_arith)
            requires
                n == num * pow2(a),
                pow2(a + 1) == 2 * pow2(a),
        ;
        assert(0x1FF_FFFF * v == big * pow2(px)) by (nonlinear_arith)
            requires
                v == den * pow2(px),
                big == 0x1FF_FFFF * den,
        ;
        assert(u * 0x200_0000 == num * pow2(nx + 25)) by (nonlinear_arith)
            requires
                u == num * pow2(nx),
                pow2(nx + 25) == pow2(nx) * 0x200_0000,
        ;
        lemma_shift_keeps_order(big, c, num, a + 1, px, nx + 25);
        lemma_shift_keeps_order(big, px, num, nx + 25, c, a + 1);
    }
}

/// For a dividend `digits * 2^t` and a divisor `den * 2^x` that are binary32
/// values, the nearest binary32 value to the quotient is one or more just
/// when the dividend is no less than the divisor.
pub proof fn lemma_quotient_of_singles_positive(digits: nat, t: nat, den: nat, x: int)
    requires
        0 < digits <= pow2(24),
        0 < den < pow2(24),
    ensures
        single_floor(digits * pow2(t), den, -x) >= 1 <==> digits * pow2(t) * lift(1, -x) >= lift(
            den,
            x,
        ),
{
    let num = digits * pow2(t);
    let px = positive_part(x);
    let nx = positive_part(-x);
    lemma2_to64();
    lemma_pow2_pos(t);
    assert(num > 0) by (nonlinear_arith)
        requires
            num == digits * pow2(t),
            digits > 0,
            pow2(t) > 0,
    ;
    lemma_single_floor_positive(num, den, x);
    lemma_lift_is_product(1, -x);
    lemma_lift_is_product(den, x);
    assert(1 * pow2(nx) == pow2(nx)) by (nonlinear_arith);
    let a = num * pow2(nx);
    let b = den * pow2(px);
    assert(num * lift(1, -x) == a);
    assert(lift(den, x) == b);
    lemma_pow2_adds(t, nx);
    assert(a == digits * pow2(t + nx)) by (nonlinear_arith)
        requires
            a == digits * pow2(t) * pow2(nx),
            pow2(t + nx) == pow2(t) * pow2(nx),
    ;
    if a < b {
        if t + nx <= px {
            let g = pow2(t + nx);
            let kb = den * pow2((px - t - nx) as nat);
            lemma_pow2_adds((px - t - nx) as nat, t + nx);
            assert(b == kb * g) by (nonlinear_arith)
                requires
                    b == den * pow2(px),
                    pow2(px) == pow2((px - t - nx) as nat) * g,
                    kb == den * pow2((px - t - nx) as nat),
            ;
            lemma_multiples_apart(digits, kb, g);
        } else {
            let g = pow2(px);
            let ka = digits * pow2((t + nx - px) as nat);
            lemma_pow2_adds((t + nx - px) as nat, px);
            lemma_pow2_pos(px);
            assert(a == ka * g) by (nonlinear_arith)
                requires
                    a == digits * pow2(t + nx),
                    pow2(t + nx) == pow2((t + nx - px) as nat) * g,
                    ka == digits * pow2((t + nx - px) as nat),
            ;
            assert(ka < den) by (nonlinear_arith)
                requires
                    ka * g < den * g,
                    g > 0,
            ;
            lemma_multiples_apart(ka, den, g);
        }
    }
}

/// `nearest_even` keeps the order of quotients.
pub proof fn lemma_nearest_even_monotone(num1: nat, den1: nat, num2: nat, den2: nat)
    requires
        den1 > 0,
        den2 > 0,
        num1 * den2 >= num2 * den1,
    ensures
        nearest_even(num1, den1) >= nearest_even(num2, den2),
{
    let j = nearest_even(num1, den1);
    let k = nearest_even(num2, den2);
    lemma_nearest_even_is_nearest(num1, den1);
    lemma_nearest_even_is_nearest(num2, den2);
    if j < k {
        // both quotients lie half-way between k - 1 and k
        assert(2 * num1 == (2 * k - 1) * den1 && 2 * num2 == (2 * k - 1) * den2 && j == k - 1)
            by (nonlinear_arith)
            requires
                den1 > 0,
                den2 > 0,
                j < k,
                num1 * den2 >= num2 * den1,
                2 * (k * den2 - num2) <= den2,
                2 * (num1 - j * den1) <= den1,
        ;
        lemma_half_way(num1, den1, k);
        lemma_half_way(num2, den2, k);
    }
}

/// The integer part of `n * 2^e` keeps the order of `n`.
pub proof fn lemma_scale_monotone(n1: nat, n2: nat, e: int)
    requires
        n1 >= n2,
    ensures
        scale(n1, e) >= scale(n2, e),
{
    if e >= 0 {
        assert(n1 * pow2(e as nat) >= n2 * pow2(e as nat)) by (nonlinear_arith)
            requires
                n1 >= n2,
        ;
    } else {
        lemma_pow2_pos((-e) as nat);
        lemma_div_is_ordered(n2 as int, n1 as int, pow2((-e) as nat) as int);
    }
}

/// The nearest binary32 value to `num / (den * 2^x)` does not grow as the
/// divisor `den * 2^x` grows.
pub proof fn lemma_single_floor_falls_as_divisor_grows(
    num: nat,
    den1: nat,
    x1: int,
    den2: nat,
    x2: int,
)
    requires
        num > 0,
        den1 > 0,
        den2 > 0,
        lift(den1, x1) * lift(1, -x2) <= lift(den2, x2) * lift(1, -x1),
    ensures
        single_floor(num, den1, -x1) >= single_floor(num, den2, -x2),
{
    let e1 = binade(num, den1);
    let e2 = binade(num, den2);
    let s1 = significand(num, den1);
    let s2 = significand(num, den2);
    lemma2_to64();
    lemma_binade_bounds(num, den1);
    lemma_binade_bounds(num, den2);
    lemma_significand_range(num, den1);
    lemma_significand_range(num, den2);
    lemma_lift_is_product(den1, e1);
    lemma_lift_is_product(num, -e1);
    lemma_lift_is_product(num, -(e1 + 1));
    lemma_lift_is_product(den1, e1 + 1);
    lemma_lift_is_product(den2, e2);
    lemma_lift_is_product(num, -e2);
    assert(scaled_at_most(den1, x1 - x2, den2)) by {
        lemma_lift_is_product(den1, x1);
        lemma_lift_is_product(1, -x2);
        lemma_lift_is_product(den2, x2);
        lemma_lift_is_product(1, -x1);
        let i = positive_part(x1) + positive_part(-x2);
        let j = positive_part(x2) + positive_part(-x1);
        lemma_pow2_adds(positive_part(x1), positive_part(-x2));
        lemma_pow2_adds(positive_part(x2), positive_part(-x1));
        assert(den1 * pow2(i) == lift(den1, x1) * lift(1, -x2)) by (nonlinear_arith)
            requires
                lift(den1, x1) == den1 * pow2(positive_part(x1)),
                lift(1, -x2) == 1 * pow2(positive_part(-x2)),
                pow2(i) == pow2(positive_part(x1)) * pow2(positive_part(-x2)),
        ;
        assert(den2 * pow2(j) == lift(den2, x2) * lift(1, -x1)) by (nonlinear_arith)
            requires
                lift(den2, x2) == den2 * pow2(positive_part(x2)),
                lift(1, -x1) == 1 * pow2(positive_part(-x1)),
                pow2(j) == pow2(positive_part(x2)) * pow2(positive_part(-x1)),
        ;
        lemma_shift_keeps_order(
            den1,
            i,
            den2,
            j,
            positive_part(x1 - x2),
            positive_part(x2 - x1),
        );
    }
    assert(scaled_at_most(den2, e2, num));
    assert(!scaled_at_most(den1, e1 + 1, num));
    if e1 - x1 < e2 - x2 {
        // the smaller divisor would give the smaller binade
        lemma_scaled_at_most_chains(den1, x1 - x2, den2, e2, num);
        lemma_scaled_at_most_eases(den1, x1 - x2 + e2, num, e1 + 1);
    } else if e1 - x1 > e2 - x2 {
        if e1 - x1 >= 0 {
            lemma_scale_at_least(s1, 23, e1 - 23 - x1);
            if e2 - x2 + 1 >= 0 {
                lemma_scale_at_most(s2, 24, e2 - 23 - x2);
                lemma_pow2_monotone((e2 - x2 + 1) as nat, (e1 - x1) as nat);
            } else {
                lemma_pow2_strictly_increases(24, 25);
                lemma_scale_vanishes(s2, 25, e2 - 23 - x2);
            }
        } else {
            lemma_pow2_strictly_increases(24, 25);
            lemma_scale_vanishes(s2, 25, e2 - 23 - x2);
        }
    } else {
        // in one binade the significands are ordered as the quotients are
        let n1 = lift(num, 23 - e1);
        let d1 = lift(den1, e1 - 23);
        let n2 = lift(num, 23 - e2);
        let d2 = lift(den2, e2 - 23);
        lemma_scaled_quotient_range(num, den1);
        lemma_scaled_quotient_range(num, den2);
        lemma_lift_is_product(num, 23 - e1);
        lemma_lift_is_product(den1, e1 - 23);
        lemma_lift_is_product(num, 23 - e2);
        lemma_lift_is_product(den2, e2 - 23);
        let i = positive_part(e1 - 23) + positive_part(23 - e2);
        let j = positive_part(e2 - 23) + positive_part(23 - e1);
        lemma_pow2_adds(positive_part(e1 - 23), positive_part(23 - e2));
        lemma_pow2_adds(positive_part(e2 - 23), positive_part(23 - e1));
        lemma_shift_keeps_order(
            den1,
            positive_part(x1 - x2),
            den2,
            positive_part(x2 - x1),
            i,
            j,
        );
        assert(n1 * d2 >= n2 * d1) by (nonlinear_arith)
            requires
                den1 * pow2(i) <= den2 * pow2(j),
                pow2(i) == pow2(positive_part(e1 - 23)) * pow2(positive_part(23 - e2)),
                pow2(j) == pow2(positive_part(e2 - 23)) * pow2(positive_part(23 - e1)),
                n1 == num * pow2(positive_part(23 - e1)),
                d1 == den1 * pow2(positive_part(e1 - 23)),
                n2 == num * pow2(positive_part(23 - e2)),
                d2 == den2 * pow2(positive_part(e2 - 23)),
        ;
        lemma_nearest_even_monotone(n1, d1, n2, d2);
        lemma_scale_monotone(s1, s2, e1 - 23 - x1);
    }
}

/// `pow2(100)` written out.
proof fn lemma_pow2_100()
    ensures
        pow2(100) == 0x10_0000_0000_0000_0000_0000_0000,
{
    lemma2_to64();
    lemma2_to64_rest();
    lemma_pow2_adds(64, 36);
}

/// `pow2(128)` written out.
proof fn lemma_pow2_128()
    ensures
        pow2(128) == 0x1_0000_0000_0000_0000_0000_0000_0000_0000,
{
    lemma2_to64();
    lemma_pow2_adds(64, 64);
}

/// `2^a <= 2^b` for `a <= b`.
proof fn lemma_pow2_monotone(a: nat, b: nat)
    requires
        a <= b,
    ensures
        pow2(a) <= pow2(b),
{
    if a < b {
        lemma_pow2_strictly_increases(a, b);
    }
}

/// Multiplying by a positive factor keeps an order.
proof fn lemma_mul_keeps_order(lo: int, x: int, hi: int, c: int)
    by (nonlinear_arith)
    requires
        lo <= x < hi,
        c > 0,
    ensures
        lo * c <= x * c < hi * c,
{
}

/// A quotient lies where its dividend lies among the multiples of the divisor.
proof fn lemma_div_between(lo: int, n: int, hi: int, d: int)
    by (nonlinear_arith)
    requires
        d > 0,
        lo * d <= n < hi * d,
    ensures
        lo <= n / d < hi,
{
}

/// Lifting a number of `k` binary digits by `e` gives one of `k + e` digits.
proof fn lemma_lift_range(n: nat, k: nat, e: int)
    requires
        k >= 1,
        pow2((k - 1) as nat) <= n < pow2(k),
    ensures
        e > 0 ==> pow2((k - 1 + e) as nat) <= lift(n, e) < pow2((k + e) as nat),
        e <= 0 ==> lift(n, e) == n,
{
    if e > 0 {
        lemma_pow2_pos(e as nat);
        lemma_mul_keeps_order(
            pow2((k - 1) as nat) as int,
            n as int,
            pow2(k) as int,
            pow2(e as nat) as int,
        );
        lemma_pow2_adds((k - 1) as nat, e as nat);
        lemma_pow2_adds(k, e as nat);
    }
}

/// The positive part of an exponent.
spec fn positive_part(e: int) -> nat {
    if e > 0 {
        e as nat
    } else {
        0
    }
}

/// `lift` multiplies by two to the positive part of the exponent.
proof fn lemma_lift_is_product(n: nat, e: int)
    ensures
        lift(n, e) == n * pow2(positive_part(e)),
{
    lemma2_to64();
    assert(n * 1 == n) by (nonlinear_arith);
}

/// An order between `a * 2^i` and `b * 2^j` holds again for exponents whose
/// difference is no larger.
proof fn lemma_shift_keeps_order(a: nat, i: nat, b: nat, j: nat, i2: nat, j2: nat)
    requires
        i2 - j2 <= i - j,
    ensures
        a * pow2(i) <= b * pow2(j) ==> a * pow2(i2) <= b * pow2(j2),
        a * pow2(i) < b * pow2(j) ==> a * pow2(i2) < b * pow2(j2),
{
    let c = pow2(i + j);
    let m = pow2(i2 + j);
    lemma_pow2_pos(i + j);
    lemma_pow2_pos(i2 + j);
    lemma_pow2_adds(i2, i + j);
    lemma_pow2_adds(i, i2 + j);
    lemma_pow2_adds(j, i2 + j);
    lemma_pow2_adds(j2, i + j);
    lemma_pow2_monotone(j + i2 + j, j2 + i + j);
    let hi = pow2(j2 + i + j);
    let mid = pow2(j + i2 + j);
    assert(a * pow2(i2) * c == a * pow2(i) * m) by (nonlinear_arith)
        requires
            pow2(i2) * c == pow2(i) * m,
    ;
    assert(b * pow2(j) * m == b * mid) by (nonlinear_arith)
        requires
            mid == pow2(j) * m,
    ;
    assert(b * pow2(j2) * c == b * hi) by (nonlinear_arith)
        requires
            hi == pow2(j2) * c,
    ;
    assert(b * mid <= b * hi) by (nonlinear_arith)
        requires
            mid <= hi,
    ;
    if a * pow2(i) <= b * pow2(j) {
        assert(a * pow2(i2) <= b * pow2(j2)) by (nonlinear_arith)
            requires
                a * pow2(i) <= b * pow2(j),
                a * pow2(i2) * c == a * pow2(i) * m,
                b * pow2(j) * m <= b * pow2(j2) * c,
                c > 0,
                m > 0,
        ;
    }
    if a * pow2(i) < b * pow2(j) {
        assert(a * pow2(i2) < b * pow2(j2)) by (nonlinear_arith)
            requires
                a * pow2(i) < b * pow2(j),
                a * pow2(i2) * c == a * pow2(i) * m,
                b * pow2(j) * m <= b * pow2(j2) * c,
                c > 0,
                m > 0,
        ;
    }
}

/// A quotient `n / d` from `2^23` up to `2^24` rounds to `2^24` just when it
/// is `2^24 - 1/2` or more.
proof fn lemma_rounds_up_to_next_binade(n: nat, d: nat)
    requires
        d > 0,
        0x80_0000 * d <= n < 0x100_0000 * d,
    ensures
        nearest_even(n, d) >= 0x100_0000 <==> 2 * n >= 0x1FF_FFFF * d,
{
    let q = n / d;
    let r = n % d;
    lemma_fundamental_div_mod(n as int, d as int);
    lemma_div_between(0x80_0000, n as int, 0x100_0000, d as int);
    assert(0 <= r < d) by (nonlinear_arith)
        requires
            r == n % d,
            d > 0,
    ;
    if 2 * n >= 0x1FF_FFFF * d {
        assert(q >= 0xFF_FFFF) by (nonlinear_arith)
            requires
                n == d * q + r,
                r < d,
                2 * n >= 0x1FF_FFFF * d,
                d > 0,
        ;
        assert(2 * r >= d) by (nonlinear_arith)
            requires
                n == d * q + r,
                q == 0xFF_FFFF,
                2 * n >= 0x1FF_FFFF * d,
        ;
    } else if q == 0xFF_FFFF {
        assert(2 * r < d) by (nonlinear_arith)
            requires
                n == d * q + r,
                q == 0xFF_FFFF,
                2 * n < 0x1FF_FFFF * d,
        ;
    }
}

/// Of two multiples of `g`, the smaller with a factor below `2^25 - 1`, the
/// quotient is below `1 - 2^-25`.
proof fn lemma_multiples_apart(ka: nat, kb: nat, g: nat)
    by (nonlinear_arith)
    requires
        ka * g < kb * g,
        ka < 0x1FF_FFFF,
    ensures
        ka * g * 0x200_0000 < 0x1FF_FFFF * (kb * g),
{
    assert(ka + 1 <= kb);
    assert(ka * 0x200_0000 < 0x1FF_FFFF * (ka + 1));
    assert(0x1FF_FFFF * (ka + 1) <= 0x1FF_FFFF * kb);
    assert(g > 0);
    assert(ka * 0x200_0000 * g < 0x1FF_FFFF * kb * g);
}

/// A quotient half-way between `k - 1` and `k` rounds to the even one of
/// the two.
proof fn lemma_half_way(num: nat, den: nat, k: nat)
    requires
        den > 0,
        k >= 1,
        2 * num == (2 * k - 1) * den,
    ensures
        nearest_even(num, den) == if k % 2 == 0 {
            k
        } else {
            (k - 1) as nat
        },
{
    let q = k - 1;
    let r = num - q * den;
    assert(2 * r == den) by (nonlinear_arith)
        requires
            r == num - q * den,
            q == k - 1,
            2 * num == (2 * k - 1) * den,
    ;
    lemma_fundamental_div_mod_converse(num as int, den as int, q as int, r as int);
}

/// Whether `a * 2^t <= b`, with the power of two multiplied out.
spec fn scaled_at_most(a: nat, t: int, b: nat) -> bool {
    a * pow2(positive_part(t)) <= b * pow2(positive_part(-t))
}

/// `a * 2^t <= b` holds again for a smaller `t`.
proof fn lemma_scaled_at_most_eases(a: nat, t: int, b: nat, t2: int)
    requires
        scaled_at_most(a, t, b),
        t2 <= t,
    ensures
        scaled_at_most(a, t2, b),
{
    lemma_shift_keeps_order(
        a,
        positive_part(t),
        b,
        positive_part(-t),
        positive_part(t2),
        positive_part(-t2),
    );
}

/// From `a * 2^t <= b` and `b * 2^u <= c` follows `a * 2^(t + u) <= c`.
proof fn lemma_scaled_at_most_chains(a: nat, t: int, b: nat, u: int, c: nat)
    requires
        scaled_at_most(a, t, b),
        scaled_at_most(b, u, c),
    ensures
        scaled_at_most(a, t + u, c),
{
    let i = positive_part(t) + positive_part(u);
    let j = positive_part(-t) + positive_part(-u);
    lemma_pow2_adds(positive_part(t), positive_part(u));
    lemma_pow2_adds(positive_part(-t), positive_part(-u));
    assert(a * pow2(i) <= c * pow2(j)) by (nonlinear_arith)
        requires
            a * pow2(positive_part(t)) <= b * pow2(positive_part(-t)),
            b * pow2(positive_part(u)) <= c * pow2(positive_part(-u)),
            pow2(i) == pow2(positive_part(t)) * pow2(positive_part(u)),
            pow2(j) == pow2(positive_part(-t)) * pow2(positive_part(-u)),
    ;
    lemma_shift_keeps_order(a, i, c, j, positive_part(t + u), positive_part(-(t + u)));
}

} // verus!
