//! Fixed-point transforms against their definitions.

use fdk_aac::fixed_fft::{
    complex_mul_div2_q15, complex_mul_q15, fft32_radix4_stage1, fft32_radix4_stage2, fft32_radix4_stage3, fixed_dct_iv_64,
    fixed_dst_iv_64, fixed_fft32, q31_rom_to_q15,
};

fn samples() -> [i32; 64] {
    let mut state = 12_345u32;
    std::array::from_fn(|_| {
        state = state.wrapping_mul(1_103_515_245).wrapping_add(12_345);
        (state as i32) >> 6
    })
}

#[test]
fn an_impulse_has_a_flat_spectrum() {
    let mut values = [0; 64];
    values[0] = 1 << 20;
    fixed_fft32(&mut values);
    for pair in values.chunks(2) {
        assert_eq!(pair, [1 << 16, 0]);
    }
}

#[test]
fn the_first_stage_transforms_four_values() {
    let mut values = [0; 64];
    values[0] = 8;
    values[16] = 4;
    values[32] = 2;
    values[48] = 6;
    fft32_radix4_stage1(&mut values);
    // Halves of the sums 20, 6 + 2i, 0 and 6 - 2i.
    assert_eq!(values[..8], [10, 0, 3, 1, 0, 0, 3, -1]);
}

#[test]
fn fourier_transform_follows_its_definition() {
    let input = samples();
    let mut output = input;
    fixed_fft32(&mut output);
    let mut staged = input;
    fft32_radix4_stage1(&mut staged);
    fft32_radix4_stage2(&mut staged);
    fft32_radix4_stage3(&mut staged);
    assert_eq!(output, staged);
    for k in 0..32 {
        let (mut re, mut im) = (0.0, 0.0);
        for n in 0..32 {
            let angle = -2.0 * std::f64::consts::PI * (k * n) as f64 / 32.0;
            let (a, b) = (f64::from(input[2 * n]), f64::from(input[2 * n + 1]));
            re += a * angle.cos() - b * angle.sin();
            im += a * angle.sin() + b * angle.cos();
        }
        assert!((re / 16.0 - f64::from(output[2 * k])).abs() < 20_000.0);
        assert!((im / 16.0 - f64::from(output[2 * k + 1])).abs() < 20_000.0);
    }
}

#[test]
fn cosine_and_sine_transforms_follow_their_definitions() {
    let input = samples();
    let mut cosines = input;
    let mut sines = input;
    assert_eq!(fixed_dct_iv_64(&mut cosines), 6);
    assert_eq!(fixed_dst_iv_64(&mut sines), 6);
    for k in 0..64 {
        let (mut cosine, mut sine) = (0.0, 0.0);
        for (n, &value) in input.iter().enumerate() {
            let angle = std::f64::consts::PI / 64.0 * (n as f64 + 0.5) * (k as f64 + 0.5);
            cosine += f64::from(value) * angle.cos();
            sine += f64::from(value) * angle.sin();
        }
        assert!((cosine / 64.0 - f64::from(cosines[k])).abs() < 20_000.0);
        assert!((sine / 64.0 - f64::from(sines[k])).abs() < 20_000.0);
    }
}

#[test]
fn silence_stays_silent() {
    let mut values = [0; 64];
    fixed_dct_iv_64(&mut values);
    assert_eq!(values, [0; 64]);
    fixed_dst_iv_64(&mut values);
    assert_eq!(values, [0; 64]);
}

#[test]
fn factors_are_rounded_and_products_halved() {
    assert_eq!(q31_rom_to_q15(0x4000_0000), 0x4000);
    assert_eq!(q31_rom_to_q15(0x7fff_ffff), 0x7fff);
    assert_eq!(q31_rom_to_q15(0x0000_8000), 1);
    let half = (0x4000_0000, 0);
    assert_eq!(complex_mul_div2_q15(1 << 20, -(1 << 18), half), (1 << 18, -(1 << 16)));
    assert_eq!(complex_mul_q15(1 << 20, -(1 << 18), half), (1 << 19, -(1 << 17)));
    assert_eq!(complex_mul_q15(0, 1 << 20, (0, 0x4000_0000)), (-(1 << 19), 0));
}

#[test]
fn the_largest_values_transform_without_overflow() {
    let patterns: [[i32; 64]; 4] = [
        [i32::MIN; 64],
        [i32::MAX; 64],
        std::array::from_fn(|n| if n % 2 == 0 { i32::MIN } else { i32::MAX }),
        std::array::from_fn(|n| if n < 32 { i32::MAX } else { i32::MIN }),
    ];
    for input in patterns {
        let mut cosines = input;
        let mut sines = input;
        fixed_dct_iv_64(&mut cosines);
        fixed_dst_iv_64(&mut sines);
        for k in 0..64 {
            let (mut cosine, mut sine) = (0.0, 0.0);
            for (n, &value) in input.iter().enumerate() {
                let angle = std::f64::consts::PI / 64.0 * (n as f64 + 0.5) * (k as f64 + 0.5);
                cosine += f64::from(value) * angle.cos();
                sine += f64::from(value) * angle.sin();
            }
            assert!((cosine / 64.0 - f64::from(cosines[k])).abs() < 1_000_000.0);
            assert!((sine / 64.0 - f64::from(sines[k])).abs() < 1_000_000.0);
        }
    }
}
