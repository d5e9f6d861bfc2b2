use noverlap::{find_binade, float_of_raw, power_of_two, raw_of_float, LIMIT, UNIT};

fn nearest(raw: i64) -> f32 {
    format!("{}e-6", raw).parse::<f32>().unwrap()
}

fn scaled(value: f32) -> Option<i64> {
    let exact = (value as f64 * 1e6).round();
    if exact.is_finite() && exact.abs() <= LIMIT as f64 {
        Some(exact as i64)
    } else {
        None
    }
}

#[test]
fn whole_numbers_decode_exactly() {
    assert_eq!(raw_of_float(0.0f32.to_bits()), Some(0));
    assert_eq!(raw_of_float(1.0f32.to_bits()), Some(UNIT));
    assert_eq!(raw_of_float((-1.0f32).to_bits()), Some(-UNIT));
    assert_eq!(raw_of_float(3.0f32.to_bits()), Some(3 * UNIT));
    assert_eq!(raw_of_float(1024.0f32.to_bits()), Some(1024 * UNIT));
    assert_eq!(raw_of_float(1_000_000.0f32.to_bits()), Some(LIMIT));
}

#[test]
fn fractions_decode_to_the_nearest_millionth() {
    assert_eq!(raw_of_float(0.5f32.to_bits()), Some(500_000));
    assert_eq!(raw_of_float(1.2f32.to_bits()), Some(1_200_000));
    assert_eq!(raw_of_float(0.1f32.to_bits()), Some(100_000));
    assert_eq!(raw_of_float(1.1f32.to_bits()), Some(1_100_000));
    assert_eq!(raw_of_float((-2.75f32).to_bits()), Some(-2_750_000));
    assert_eq!(raw_of_float(0.000_001f32.to_bits()), Some(1));
    assert_eq!(raw_of_float(0.005f32.to_bits()), Some(5_000));
}

#[test]
fn halves_decode_away_from_zero() {
    // 2^-21 is 0.000000476..., 2^-20 is 0.00000095..., 1.5 * 2^-20 is 0.00000143...
    assert_eq!(raw_of_float(f32::from_bits(0x3500_0000).to_bits()), Some(0));
    assert_eq!(raw_of_float(f32::from_bits(0x3580_0000).to_bits()), Some(1));
    // 0.0000005 is no float; the floats next to it decode to either side.
    assert_eq!(raw_of_float(0.000_000_49f32.to_bits()), Some(0));
    assert_eq!(raw_of_float(0.000_000_51f32.to_bits()), Some(1));
    assert_eq!(raw_of_float((-0.000_000_51f32).to_bits()), Some(-1));
    // 0.5 raw steps exactly: 2^-1 * 10^-6 is no float either, but 1.5 is one.
    assert_eq!(raw_of_float(1.5f32.to_bits()), Some(1_500_000));
}

#[test]
fn tiny_floats_decode_to_zero() {
    assert_eq!(raw_of_float((-0.0f32).to_bits()), Some(0));
    assert_eq!(raw_of_float(f32::MIN_POSITIVE.to_bits()), Some(0));
    assert_eq!(raw_of_float(1), Some(0));
    assert_eq!(raw_of_float(0x007f_ffff), Some(0));
    assert_eq!(raw_of_float(1e-20f32.to_bits()), Some(0));
    assert_eq!(raw_of_float((-1e-30f32).to_bits()), Some(0));
}

#[test]
fn floats_that_are_no_numbers_have_no_raw_value() {
    assert_eq!(raw_of_float(f32::INFINITY.to_bits()), None);
    assert_eq!(raw_of_float(f32::NEG_INFINITY.to_bits()), None);
    assert_eq!(raw_of_float(f32::NAN.to_bits()), None);
    assert_eq!(raw_of_float(0x7fc0_0001), None);
    assert_eq!(raw_of_float(0xffff_ffff), None);
}

#[test]
fn floats_beyond_the_limit_have_no_raw_value() {
    assert_eq!(raw_of_float(1_000_000.1f32.to_bits()), None);
    assert_eq!(raw_of_float((-1_000_000.1f32).to_bits()), None);
    assert_eq!(raw_of_float(8_388_608.0f32.to_bits()), None);
    assert_eq!(raw_of_float(1e30f32.to_bits()), None);
    assert_eq!(raw_of_float(f32::MAX.to_bits()), None);
    assert_eq!(raw_of_float(f32::MIN.to_bits()), None);
    assert_eq!(raw_of_float((-1_000_000.0f32).to_bits()), Some(-LIMIT));
}

#[test]
fn decoding_agrees_with_scaling_and_rounding() {
    let mut bits: u32 = 0x1234_5678;
    for _ in 0..200_000 {
        bits = bits.wrapping_mul(1_664_525).wrapping_add(1_013_904_223);
        let value = f32::from_bits(bits);
        assert_eq!(raw_of_float(bits), scaled(value), "{:#x}", bits);
    }
}

#[test]
fn decoding_agrees_with_scaling_near_the_scale() {
    for exponent in 100u32..150 {
        for fraction in [0u32, 1, 2, 0x40_0000, 0x7f_fffe, 0x7f_ffff, 0x12_3456] {
            for sign in [0u32, 0x8000_0000] {
                let bits = sign | (exponent << 23) | fraction;
                assert_eq!(raw_of_float(bits), scaled(f32::from_bits(bits)), "{:#x}", bits);
            }
        }
    }
}

#[test]
fn raw_values_encode_to_the_nearest_float() {
    assert_eq!(float_of_raw(0), 0.0f32.to_bits());
    assert_eq!(float_of_raw(UNIT), 1.0f32.to_bits());
    assert_eq!(float_of_raw(-UNIT), (-1.0f32).to_bits());
    assert_eq!(float_of_raw(1_200_000), 1.2f32.to_bits());
    assert_eq!(float_of_raw(100_000), 0.1f32.to_bits());
    assert_eq!(float_of_raw(500_000), 0.5f32.to_bits());
    assert_eq!(float_of_raw(-2_750_000), (-2.75f32).to_bits());
    assert_eq!(float_of_raw(1), 0.000_001f32.to_bits());
    assert_eq!(float_of_raw(LIMIT), 1_000_000.0f32.to_bits());
    assert_eq!(float_of_raw(641_421), 0.641_421f32.to_bits());
}

#[test]
fn encoding_carries_into_the_exponent() {
    // 1.99999999 is nearer to 2 than to the float below 2.
    assert_eq!(float_of_raw(16_777_215_999_999), 16_777_216.0f32.to_bits());
    assert_eq!(float_of_raw(1_999_999_990_000), nearest(1_999_999_990_000).to_bits());
}

#[test]
fn encoding_the_extremes() {
    assert_eq!(float_of_raw(i64::MAX), nearest(i64::MAX).to_bits());
    assert_eq!(float_of_raw(i64::MIN), nearest(i64::MIN).to_bits());
    assert_eq!(float_of_raw(-1), nearest(-1).to_bits());
}

#[test]
fn encoding_agrees_with_parsing_the_decimal() {
    let mut state: u64 = 0x9e37_79b9_7f4a_7c15;
    for round in 0..100_000 {
        state = state.wrapping_mul(6_364_136_223_846_793_005).wrapping_add(1_442_695_040_888_963_407);
        let raw = (state >> (round % 64)) as i64;
        assert_eq!(float_of_raw(raw), nearest(raw).to_bits(), "{}", raw);
        assert_eq!(float_of_raw(raw.wrapping_neg()), nearest(raw.wrapping_neg()).to_bits());
    }
}

#[test]
fn encoding_agrees_with_parsing_small_values() {
    for raw in -5_000i64..5_000 {
        assert_eq!(float_of_raw(raw), nearest(raw).to_bits(), "{}", raw);
    }
    for raw in 16_777_000i64..16_778_000 {
        assert_eq!(float_of_raw(raw), nearest(raw).to_bits(), "{}", raw);
    }
}

#[test]
fn small_raw_values_survive_the_round_trip() {
    for raw in -20_000i64..20_000 {
        assert_eq!(raw_of_float(float_of_raw(raw)), Some(raw));
    }
    for raw in [UNIT, 1_200_000, 8_388_607, -8_388_608, 641_421] {
        assert_eq!(raw_of_float(float_of_raw(raw)), Some(raw));
    }
}

#[test]
fn find_binade_brackets_the_value() {
    assert_eq!(find_binade(1), -20);
    assert_eq!(find_binade(999_999), -1);
    assert_eq!(find_binade(500_000), -1);
    assert_eq!(find_binade(499_999), -2);
    assert_eq!(find_binade(1_000_000), 0);
    assert_eq!(find_binade(1_999_999), 0);
    assert_eq!(find_binade(2_000_000), 1);
    assert_eq!(find_binade(1 << 63), 43);
}

#[test]
fn power_of_two_doubles() {
    assert_eq!(power_of_two(0), 1);
    assert_eq!(power_of_two(1), 2);
    assert_eq!(power_of_two(10), 1024);
    assert_eq!(power_of_two(126), 1u128 << 126);
}
