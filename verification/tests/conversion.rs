use txt2mp3::pcm::{sample_to_pcm, PCM_MAX};

/// The conversion in floating point: clamp, scale, truncate.
fn reference(x: f32) -> i16 {
    let x = x.clamp(-1.0, 1.0);
    (x * i16::MAX as f32) as i16
}

#[test]
fn converts_landmark_values() {
    assert_eq!(sample_to_pcm(0.0f32.to_bits()), 0);
    assert_eq!(sample_to_pcm((-0.0f32).to_bits()), 0);
    assert_eq!(sample_to_pcm(1.0f32.to_bits()), 32767);
    assert_eq!(sample_to_pcm((-1.0f32).to_bits()), -32767);
    assert_eq!(sample_to_pcm(0.5f32.to_bits()), 16383);
    assert_eq!(sample_to_pcm((-0.5f32).to_bits()), -16383);
    assert_eq!(sample_to_pcm(0.25f32.to_bits()), 8191);
    assert_eq!(PCM_MAX, i16::MAX);
}

#[test]
fn clamps_out_of_range_samples() {
    assert_eq!(sample_to_pcm(2.5f32.to_bits()), 32767);
    assert_eq!(sample_to_pcm((-7.0f32).to_bits()), -32767);
    assert_eq!(sample_to_pcm(f32::INFINITY.to_bits()), 32767);
    assert_eq!(sample_to_pcm(f32::NEG_INFINITY.to_bits()), -32767);
    assert_eq!(sample_to_pcm(f32::MAX.to_bits()), 32767);
}

#[test]
fn nan_becomes_silence() {
    assert_eq!(sample_to_pcm(f32::NAN.to_bits()), 0);
    assert_eq!(sample_to_pcm(0x7fc0_0001), 0);
    assert_eq!(sample_to_pcm(0xffff_ffff), 0);
    assert_eq!(sample_to_pcm(0x7f80_0001), 0);
}

#[test]
fn tiny_samples_truncate_to_zero() {
    assert_eq!(sample_to_pcm(f32::MIN_POSITIVE.to_bits()), 0);
    assert_eq!(sample_to_pcm(1), 0);
    assert_eq!(sample_to_pcm(0x8000_0001), 0);
    assert_eq!(sample_to_pcm((3.0e-5f32).to_bits()), 0);
    assert_eq!(sample_to_pcm((3.1e-5f32).to_bits()), 1);
}

#[test]
fn rounding_of_the_product_decides_near_integers() {
    // The largest sample below 1 stays below the full scale.
    let below_one = f32::from_bits(1.0f32.to_bits() - 1);
    assert_eq!(sample_to_pcm(below_one.to_bits()), reference(below_one));
    assert_eq!(sample_to_pcm(below_one.to_bits()), 32766);
    // Around 1/32767 the product is rounded to 1 or stays just below it.
    let unit = (1.0f32 / 32767.0).to_bits();
    let mut bits = unit - 64;
    while bits <= unit + 64 {
        assert_eq!(sample_to_pcm(bits), reference(f32::from_bits(bits)), "bits {bits:#x}");
        bits += 1;
    }
}

#[test]
fn agrees_with_floating_point_on_a_sweep_of_patterns() {
    let mut bits: u32 = 0;
    let mut checked: u32 = 0;
    loop {
        let expected = reference(f32::from_bits(bits));
        assert_eq!(sample_to_pcm(bits), expected, "bits {bits:#x}");
        checked += 1;
        match bits.checked_add(7919) {
            Some(next) => bits = next,
            None => break,
        }
    }
    assert!(checked > 500_000);
}

#[test]
fn agrees_with_floating_point_on_every_pattern_near_the_top_of_the_range() {
    // All patterns of the binade [0.5, 1), both signs, in steps of 5.
    let start = 0.5f32.to_bits();
    let end = 1.0f32.to_bits();
    let mut bits = start;
    while bits < end {
        let x = f32::from_bits(bits);
        assert_eq!(sample_to_pcm(bits), reference(x), "bits {bits:#x}");
        assert_eq!(sample_to_pcm(bits | 0x8000_0000), reference(-x), "bits {bits:#x}");
        bits += 5;
    }
}

#[test]
fn sine_wave_round_trip_stays_within_one_unit() {
    let n = 4800;
    for i in 0..n {
        let x = (2.0 * std::f32::consts::PI * 440.0 * i as f32 / 24000.0).sin();
        let pcm = sample_to_pcm(x.to_bits());
        let back = pcm as f32 / 32767.0;
        let error = (back - x).abs() * 32767.0;
        assert!(error <= 1.0, "sample {i}: {x} became {pcm}");
    }
}
