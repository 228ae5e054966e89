//! The duration estimate: 300 ms for each word, divided by the rate, in
//! binary32 arithmetic.

use vstd::prelude::*;
use vstd::arithmetic::power2::{
    lemma2_to64,
    lemma2_to64_rest,
    lemma_pow2_adds,
    lemma_pow2_pos,
    lemma_pow2_strictly_increases,
    pow2,
};
use crate::error::SpeechError;
use crate::rate::Rate;
use crate::single::{
    bit_length,
    floor_scaled,
    lemma_bit_length_bounds,
    lemma_quotient_of_singles_positive,
    lemma_scale_at_least,
    lemma_significand_range,
    lemma_single_floor_falls_as_divisor_grows,
    lemma_single_of_nat_at_least,
    lemma_single_of_nat_at_most,
    lemma_single_of_nat_digits,
    lemma_single_of_small_nat,
    lift,
    nearest_single,
    single_floor,
    single_of_nat,
};

verus! {

/// Milliseconds that one word takes at rate 1.
pub const MS_PER_WORD: u64 = 300;

/// The milliseconds that `words` words take at rate 1: the word count is
/// rounded to binary32, and so is its product with `MS_PER_WORD`.
pub open spec fn spoken_ms(words: nat) -> nat {
    single_floor(single_floor(words, 1, 0) * (MS_PER_WORD as nat), 1, 0)
}

/// The estimate for `words` words at the rate `significand * 2^exponent`:
/// the quotient of `spoken_ms` by the rate is rounded to binary32, and its
/// integer part is the estimate, at most `u64::MAX`.
pub open spec fn estimate_ms(words: nat, significand: nat, exponent: int) -> nat {
    let ms = single_floor(spoken_ms(words), significand, -exponent);
    if ms > u64::MAX {
        u64::MAX as nat
    } else {
        ms
    }
}

/// Whether `spoken_ms(words)` is no less than the rate
/// `significand * 2^exponent`, with the power of two multiplied out.
pub open spec fn covers_rate(words: nat, significand: nat, exponent: int) -> bool {
    spoken_ms(words) * lift(1, -exponent) >= lift(significand, exponent)
}

/// The estimated duration in milliseconds of `words` words spoken at `rate`:
/// `estimate_ms` for a valid rate, the error for any other.
pub fn estimate_duration_ms(words: usize, rate: Rate) -> (estimate: Result<u64, SpeechError>)
    ensures
        !rate.is_finite() ==> estimate == Err::<u64, SpeechError>(SpeechError::NonFiniteRate),
        rate.is_finite() && !rate.is_valid() ==> estimate == Err::<u64, SpeechError>(
            SpeechError::NonPositiveRate,
        ),
        rate.is_valid() ==> (estimate matches Ok(ms) && ms == estimate_ms(
            words as nat,
            rate.significand(),
            rate.exponent(),
        )),
{
    match rate.decode() {
        Ok((significand, exponent)) => Ok(estimate_from_parts(words, significand, exponent)),
        Err(error) => Err(error),
    }
}

/// Computes `estimate_ms` for a decoded rate.
fn estimate_from_parts(words: usize, significand: u32, exponent: i32) -> (ms: u64)
    requires
        0 < significand < 0x100_0000,
        -149 <= exponent <= 104,
    ensures
        ms == estimate_ms(words as nat, significand as nat, exponent as int),
{
    proof {
        lemma2_to64();
        lemma2_to64_rest();
        lemma_pow2_strictly_increases(64, 73);
        lemma_pow2_strictly_increases(73, 100);
        lemma_single_of_nat_at_most(words as nat, 64);
        lemma_pow2_adds(9, 64);
    }
    let counted = single_of_nat(words as u128);
    let per_word = MS_PER_WORD as u128;
    assert(counted * per_word == counted * 300 < pow2(73)) by (nonlinear_arith)
        requires
            counted <= pow2(64),
            per_word == 300,
            pow2(73) == 512 * pow2(64),
            pow2(64) > 0,
    ;
    let product = counted * per_word;
    proof {
        lemma_single_of_nat_at_most(product as nat, 73);
    }
    let spoken = single_of_nat(product);
    if spoken == 0 {
        return 0;
    }
    let (sig, binade) = nearest_single(spoken, significand as u128);
    let shift: i32 = binade - 23 - exponent;
    proof {
        lemma_significand_range(spoken as nat, significand as nat);
    }
    if shift >= 41 {
        proof {
            lemma_scale_at_least(sig as nat, 23, shift as int);
            if shift > 41 {
                lemma_pow2_strictly_increases(64, (23 + shift) as nat);
            }
        }
        u64::MAX
    } else {
        let ms = floor_scaled(sig, shift);
        if ms > u64::MAX as u128 {
            u64::MAX
        } else {
            ms as u64
        }
    }
}

/// No words take no time, at any rate.
pub proof fn lemma_no_words_no_time(significand: nat, exponent: int)
    ensures
        spoken_ms(0) == 0,
        estimate_ms(0, significand, exponent) == 0,
{
}

/// Up to 55924 words, `spoken_ms` is 300 ms for each word exactly.
pub proof fn lemma_spoken_ms_exact(words: nat)
    requires
        words * MS_PER_WORD < 0x100_0000,
    ensures
        spoken_ms(words) == words * MS_PER_WORD,
{
    lemma2_to64();
    lemma_single_of_small_nat(words);
    lemma_single_of_small_nat(words * (MS_PER_WORD as nat));
}

/// One word or more takes 300 ms or more at rate 1.
pub proof fn lemma_spoken_ms_at_least(words: nat)
    requires
        words >= 1,
    ensures
        spoken_ms(words) >= MS_PER_WORD,
{
    lemma2_to64();
    lemma_single_of_nat_at_least(words);
    lemma_bit_length_bounds(words);
    lemma_pow2_pos((bit_length(words) - 1) as nat);
    let product = single_floor(words, 1, 0) * (MS_PER_WORD as nat);
    assert(product >= MS_PER_WORD);
    if product < pow2(24) {
        lemma_single_of_small_nat(product);
    } else {
        lemma_single_of_nat_at_least(product);
        lemma_bit_length_bounds(product);
        if bit_length(product) < 25 {
            if bit_length(product) < 24 {
                lemma_pow2_strictly_increases(bit_length(product), 24);
            }
        } else if bit_length(product) > 25 {
            lemma_pow2_strictly_increases(24, (bit_length(product) - 1) as nat);
        }
    }
}

/// The estimate is above zero just when `spoken_ms` of the words is no less
/// than the rate.
pub proof fn lemma_estimate_positive(words: nat, significand: nat, exponent: int)
    requires
        0 < significand < 0x100_0000,
    ensures
        estimate_ms(words, significand, exponent) > 0 <==> covers_rate(
            words,
            significand,
            exponent,
        ),
{
    lemma2_to64();
    let counted = single_floor(words, 1, 0);
    let digits = lemma_single_of_nat_digits(counted * (MS_PER_WORD as nat));
    if spoken_ms(words) > 0 {
        assert(digits.0 > 0) by (nonlinear_arith)
            requires
                digits.0 * pow2(digits.1) > 0,
        ;
        lemma_quotient_of_singles_positive(digits.0, digits.1, significand, exponent);
    } else {
        if exponent > 0 {
            lemma_pow2_pos(exponent as nat);
            assert(significand * pow2(exponent as nat) > 0) by (nonlinear_arith)
                requires
                    significand > 0,
                    pow2(exponent as nat) > 0,
            ;
        }
        assert(spoken_ms(words) * lift(1, -exponent) == 0) by (nonlinear_arith)
            requires
                spoken_ms(words) == 0,
        ;
    }
}

/// One word or more at a rate of 300 or less takes time.
pub proof fn lemma_estimate_positive_up_to_rate_300(words: nat, significand: nat, exponent: int)
    requires
        words >= 1,
        0 < significand < 0x100_0000,
        lift(significand, exponent) <= MS_PER_WORD * lift(1, -exponent),
    ensures
        estimate_ms(words, significand, exponent) > 0,
{
    lemma_spoken_ms_at_least(words);
    lemma_estimate_positive(words, significand, exponent);
    assert(spoken_ms(words) * lift(1, -exponent) >= MS_PER_WORD * lift(1, -exponent))
        by (nonlinear_arith)
        requires
            spoken_ms(words) >= MS_PER_WORD,
    ;
}

/// Whether the rate `significand1 * 2^exponent1` is no more than the rate
/// `significand2 * 2^exponent2`, with the powers of two multiplied out.
pub open spec fn rate_at_most(
    significand1: nat,
    exponent1: int,
    significand2: nat,
    exponent2: int,
) -> bool {
    lift(significand1, exponent1) * lift(1, -exponent2) <= lift(significand2, exponent2) * lift(
        1,
        -exponent1,
    )
}

/// A faster rate never gives a longer estimate for the same words.
pub proof fn lemma_estimate_falls_as_rate_grows(
    words: nat,
    significand1: nat,
    exponent1: int,
    significand2: nat,
    exponent2: int,
)
    requires
        significand1 > 0,
        significand2 > 0,
        rate_at_most(significand1, exponent1, significand2, exponent2),
    ensures
        estimate_ms(words, significand1, exponent1) >= estimate_ms(
            words,
            significand2,
            exponent2,
        ),
{
    if spoken_ms(words) > 0 {
        lemma_single_floor_falls_as_divisor_grows(
            spoken_ms(words),
            significand1,
            exponent1,
            significand2,
            exponent2,
        );
    }
}

} // verus!
