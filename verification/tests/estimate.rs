use soundmirror::estimate::estimate_duration_ms;
use soundmirror::single::{bit_length_u128, floor_scaled, nearest_single, pow2_u128, single_of_nat};
use soundmirror::Rate;
use soundmirror::SpeechError;

fn by_float(words: usize, rate: f32) -> u64 {
    (words as f32 * 300.0 / rate) as u64
}

fn by_library(words: usize, rate: f32) -> u64 {
    estimate_duration_ms(words, Rate::from_bits(rate.to_bits())).unwrap()
}

fn next_random(state: &mut u64) -> u64 {
    *state = state.wrapping_mul(6364136223846793005).wrapping_add(1442695040888963407);
    *state >> 11
}

#[test]
fn estimate_formula_values() {
    assert_eq!(by_library(3, 1.0), 900);
    assert_eq!(by_library(3, 2.0), 450);
    assert_eq!(by_library(1, 1.0), 300);
    assert_eq!(by_library(1, 300.0), 1);
    assert_eq!(by_library(1, 301.0), 0);
    assert_eq!(by_library(10, 1.5), 2000);
    assert_eq!(by_library(0, 1.0), 0);
    assert_eq!(by_library(0, 1.0e-45), 0);
}

#[test]
fn estimate_rounds_as_single_precision_does() {
    // 16777217 is not a binary32 number: the count is rounded before it is multiplied.
    assert_eq!(by_library(16_777_217, 1.0), 5_033_164_800);
    assert_eq!(by_float(16_777_217, 1.0), 5_033_164_800);
    // The exact quotient 900000 / 3.0000002 lies just below 300000.
    assert_eq!(by_library(3000, 3.000_000_2), by_float(3000, 3.000_000_2));
    // One step of the last binary digit above 300, one word takes no time.
    let above = f32::from_bits(300.0f32.to_bits() + 1);
    assert_eq!(by_float(1, above), 0);
    assert_eq!(by_library(1, above), 0);
}

#[test]
fn estimate_is_positive_when_the_words_cover_the_rate() {
    let mut state = 0x5DEE_CE66_D123_4567u64;
    let mut checked = 0;
    while checked < 100_000 {
        let words = (next_random(&mut state) % 1_000_000) as usize;
        let spoken = words as f32 * 300.0;
        // rates of every magnitude, and rates within a few steps of the product
        let near = f32::from_bits((spoken.to_bits() + (next_random(&mut state) % 9) as u32).saturating_sub(4));
        let any = f32::from_bits(next_random(&mut state) as u32 & 0x7FFF_FFFF);
        for rate in [near, any] {
            if rate.is_finite() && rate > 0.0 {
                assert_eq!(by_library(words, rate) > 0, spoken >= rate, "{} words at {:e}", words, rate);
                checked += 1;
            }
        }
    }
}

#[test]
fn estimate_agrees_with_single_precision_on_small_counts() {
    let rates = [
        0.25f32, 0.5, 0.75, 0.9, 1.0, 1.1, 1.25, 1.5, 1.75, 2.0, 3.0, 0.1, 0.3, 7.0, 299.99,
        300.0, 300.01, 1.0e-3, 1.0e3, 1.0e-10, 1.0e10, 1.0e-30, 1.0e30, 1.0e-38, 1.0e-40,
        1.0e-44, 1.0e-45, f32::MAX, f32::MIN_POSITIVE, 123.456, 0.007,
    ];
    for words in 0..2000usize {
        for rate in rates {
            assert_eq!(by_library(words, rate), by_float(words, rate), "{} words at {}", words, rate);
        }
    }
}

#[test]
fn estimate_agrees_with_single_precision_on_random_rates() {
    let mut state = 0x9E37_79B9_7F4A_7C15u64;
    let mut checked = 0;
    while checked < 200_000 {
        let bits = next_random(&mut state) as u32 & 0x7FFF_FFFF;
        let rate = f32::from_bits(bits);
        if !rate.is_finite() || rate == 0.0 {
            continue;
        }
        let words = (next_random(&mut state) % 100_000) as usize;
        assert_eq!(by_library(words, rate), by_float(words, rate), "{} words at {:e}", words, rate);
        checked += 1;
    }
}

#[test]
fn estimate_agrees_with_single_precision_on_random_counts() {
    let mut state = 0x0123_4567_89AB_CDEFu64;
    for _ in 0..200_000 {
        let width = next_random(&mut state) % 65;
        let words = if width == 0 { 0 } else { (next_random(&mut state) << 11 >> (64 - width)) as usize };
        // rates near one, and rates of every magnitude
        let near = f32::from_bits(0x3F00_0000 + (next_random(&mut state) as u32 & 0x01FF_FFFF));
        assert_eq!(by_library(words, near), by_float(words, near), "{} words at {:e}", words, near);
        let bits = next_random(&mut state) as u32 & 0x7FFF_FFFF;
        let any = f32::from_bits(bits);
        if any.is_finite() && any > 0.0 {
            assert_eq!(by_library(words, any), by_float(words, any), "{} words at {:e}", words, any);
        }
    }
}

#[test]
fn estimate_agrees_with_single_precision_near_whole_quotients() {
    // Rates one step of the last binary digit around divisors of 300 * words.
    for words in 1..400usize {
        for divisor in [1.0f32, 2.0, 3.0, 4.0, 5.0, 6.0, 10.0, 12.0, 15.0, 20.0, 25.0, 30.0, 50.0, 60.0, 75.0, 100.0, 150.0, 300.0] {
            let bits = divisor.to_bits();
            for step in 0..4u32 {
                for rate in [f32::from_bits(bits + step), f32::from_bits(bits - step)] {
                    assert_eq!(by_library(words, rate), by_float(words, rate), "{} words at {:e}", words, rate);
                }
            }
        }
    }
}

#[test]
fn estimate_for_the_largest_count() {
    for rate in [1.0f32, 2.0, 300.0, 1.0e10, 1.0e20, f32::MAX, 1.0e-10] {
        assert_eq!(by_library(usize::MAX, rate), by_float(usize::MAX, rate));
    }
    assert_eq!(by_library(usize::MAX, 1.0), u64::MAX);
}

#[test]
fn estimate_refuses_rates_that_are_not_valid() {
    let estimate = |rate: f32| estimate_duration_ms(3, Rate::from_bits(rate.to_bits()));
    assert_eq!(estimate(f32::NAN), Err(SpeechError::NonFiniteRate));
    assert_eq!(estimate(f32::INFINITY), Err(SpeechError::NonFiniteRate));
    assert_eq!(estimate(f32::NEG_INFINITY), Err(SpeechError::NonFiniteRate));
    assert_eq!(estimate(0.0), Err(SpeechError::NonPositiveRate));
    assert_eq!(estimate(-0.0), Err(SpeechError::NonPositiveRate));
    assert_eq!(estimate(-2.0), Err(SpeechError::NonPositiveRate));
    assert_eq!(estimate(2.0), Ok(450));
}

#[test]
fn rate_decodes_binary32() {
    assert_eq!(Rate::from_bits(1.0f32.to_bits()).decode(), Ok((0x80_0000, -23)));
    assert_eq!(Rate::from_bits(1.5f32.to_bits()).decode(), Ok((0xC0_0000, -23)));
    assert_eq!(Rate::from_bits(2.0f32.to_bits()).decode(), Ok((0x80_0000, -22)));
    assert_eq!(Rate::from_bits(1).decode(), Ok((1, -149)));
    assert_eq!(Rate::from_bits(f32::MIN_POSITIVE.to_bits()).decode(), Ok((0x80_0000, -149)));
    assert_eq!(Rate::from_bits(f32::MAX.to_bits()).decode(), Ok((0xFF_FFFF, 104)));
    assert_eq!(Rate::from_bits(0).decode(), Err(SpeechError::NonPositiveRate));
    assert_eq!(Rate::from_bits(0x8000_0000).decode(), Err(SpeechError::NonPositiveRate));
    assert_eq!(Rate::from_bits(0x7F80_0000).decode(), Err(SpeechError::NonFiniteRate));
    assert_eq!(Rate::from_bits(0xFFC0_0000).decode(), Err(SpeechError::NonFiniteRate));
    assert_eq!(Rate::from_bits(0x3F80_0000).to_bits(), 0x3F80_0000);
}

#[test]
fn rate_decoding_gives_the_value_back() {
    let mut state = 7u64;
    for _ in 0..100_000 {
        let bits = next_random(&mut state) as u32 & 0x7FFF_FFFF;
        let value = f32::from_bits(bits);
        match Rate::from_bits(bits).decode() {
            Ok((significand, exponent)) => {
                assert!(value.is_finite() && value > 0.0);
                assert_eq!(significand as f64 * 2.0f64.powi(exponent), value as f64);
            }
            Err(SpeechError::NonFiniteRate) => assert!(!value.is_finite()),
            Err(SpeechError::NonPositiveRate) => assert!(value == 0.0),
        }
    }
}

#[test]
fn single_of_nat_rounds_to_24_digits() {
    assert_eq!(single_of_nat(0), 0);
    assert_eq!(single_of_nat(1), 1);
    assert_eq!(single_of_nat(16_777_215), 16_777_215);
    assert_eq!(single_of_nat(16_777_216), 16_777_216);
    assert_eq!(single_of_nat(16_777_217), 16_777_216);
    assert_eq!(single_of_nat(16_777_218), 16_777_218);
    assert_eq!(single_of_nat(16_777_219), 16_777_220);
    assert_eq!(single_of_nat(u64::MAX as u128), 1u128 << 64);
    let mut state = 99u64;
    for _ in 0..100_000 {
        let n = next_random(&mut state) << 11 >> (next_random(&mut state) % 64);
        assert_eq!(single_of_nat(n as u128), (n as f32) as u128);
    }
}

#[test]
fn nearest_single_of_quotients() {
    assert_eq!(nearest_single(1, 1), (0x80_0000, 0));
    assert_eq!(nearest_single(3, 1), (0xC0_0000, 1));
    assert_eq!(nearest_single(1, 3), (0xAA_AAAB, -2));
    assert_eq!(nearest_single(1, 2), (0x80_0000, -1));
    assert_eq!(nearest_single(900, 7), ((900.0f32 / 7.0).to_bits() & 0x7F_FFFF | 0x80_0000, 7));
    // ties go to the even significand
    assert_eq!(nearest_single(0x100_0001, 1), (0x80_0000, 24));
    assert_eq!(nearest_single(0x100_0003, 1), (0x80_0002, 24));
    // rounding up may reach 2^24
    assert_eq!(nearest_single(0x1FF_FFFF, 1), (0x100_0000, 24));
}

#[test]
fn floor_scaled_values() {
    assert_eq!(floor_scaled(0x80_0000, -23), 1);
    assert_eq!(floor_scaled(0xC0_0000, -23), 1);
    assert_eq!(floor_scaled(0xC0_0000, -22), 3);
    assert_eq!(floor_scaled(0xFF_FFFF, -24), 0);
    assert_eq!(floor_scaled(0x100_0000, -24), 1);
    assert_eq!(floor_scaled(0x100_0000, -25), 0);
    assert_eq!(floor_scaled(0x100_0000, i32::MIN), 0);
    assert_eq!(floor_scaled(5, 0), 5);
    assert_eq!(floor_scaled(5, 100), 5u128 << 100);
}

#[test]
fn powers_and_bit_lengths() {
    assert_eq!(pow2_u128(0), 1);
    assert_eq!(pow2_u128(10), 1024);
    assert_eq!(pow2_u128(127), 1u128 << 127);
    assert_eq!(bit_length_u128(0), 0);
    assert_eq!(bit_length_u128(1), 1);
    assert_eq!(bit_length_u128(255), 8);
    assert_eq!(bit_length_u128(256), 9);
    assert_eq!(bit_length_u128(u128::MAX), 128);
}

#[test]
fn estimate_never_grows_with_the_rate() {
    let mut state = 0x1357_9BDF_2468_ACE0u64;
    for _ in 0..100_000 {
        let words = (next_random(&mut state) % 1_000_000) as usize;
        let a = f32::from_bits(next_random(&mut state) as u32 & 0x7FFF_FFFF);
        let step = (next_random(&mut state) % 64) as u32;
        let b = if step < 32 {
            f32::from_bits(a.to_bits().saturating_add(step))
        } else {
            f32::from_bits(next_random(&mut state) as u32 & 0x7FFF_FFFF)
        };
        let (slow, fast) = if a <= b { (a, b) } else { (b, a) };
        if slow.is_finite() && fast.is_finite() && slow > 0.0 {
            assert!(by_library(words, slow) >= by_library(words, fast), "{} words at {:e} and {:e}", words, slow, fast);
        }
    }
}

#[test]
fn estimate_falls_with_the_rate_on_given_values() {
    assert_eq!(by_library(3, 0.5), 1800);
    assert_eq!(by_library(3, 1.0), 900);
    assert_eq!(by_library(3, 2.0), 450);
    assert_eq!(by_library(3, 4.0), 225);
    assert_eq!(by_library(3, 900.0), 1);
    assert_eq!(by_library(3, 901.0), 0);
}
