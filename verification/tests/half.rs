use pocket_tts_deploy::half::f16_to_f32;

fn value(bits: u16) -> f32 {
    f32::from_bits(f16_to_f32(bits))
}

/// The value of a finite binary16 number, computed from its fields.
fn finite(bits: u16) -> f64 {
    let sign = if bits & 0x8000 == 0 { 1.0 } else { -1.0 };
    let exp = ((bits >> 10) & 0x1f) as i32;
    let mant = (bits & 0x3ff) as f64;
    if exp == 0 {
        sign * mant * 2f64.powi(-24)
    } else {
        sign * (1.0 + mant / 1024.0) * 2f64.powi(exp - 15)
    }
}

#[test]
fn well_known_halves() {
    assert_eq!(value(0x3c00), 1.0);
    assert_eq!(value(0xc000), -2.0);
    assert_eq!(value(0x3555), 0.33325195);
    assert_eq!(value(0x7bff), 65504.0);
    assert_eq!(value(0x0400), 6.1035156e-5);
    assert_eq!(value(0x0001), 5.9604645e-8);
    assert_eq!(value(0x03ff), 6.097555e-5);
    assert_eq!(f16_to_f32(0x0000), 0);
    assert_eq!(f16_to_f32(0x8000), 0x8000_0000);
    assert_eq!(value(0x7c00), f32::INFINITY);
    assert_eq!(value(0xfc00), f32::NEG_INFINITY);
    assert!(value(0x7e00).is_nan());
    assert_eq!(f16_to_f32(0x7e00), 0x7fc0_0000);
}

#[test]
fn every_half_keeps_its_value() {
    for bits in 0..=u16::MAX {
        let wide = value(bits);
        if (bits >> 10) & 0x1f == 31 {
            assert_eq!(wide.is_nan(), bits & 0x3ff != 0, "{bits:#06x}");
            assert_eq!(wide.is_sign_negative(), bits & 0x8000 != 0);
        } else {
            assert_eq!(wide as f64, finite(bits), "{bits:#06x}");
            assert_eq!(wide.is_sign_negative(), bits & 0x8000 != 0);
        }
    }
}

#[test]
fn different_halves_stay_different() {
    let mut seen: Vec<u32> = (0..=u16::MAX).map(f16_to_f32).collect();
    seen.sort_unstable();
    seen.dedup();
    assert_eq!(seen.len(), 65536);
}
