use scalar25519::narrow::{muladd as muladd_narrow, NarrowScalar};
use scalar25519::scalar::{muladd as muladd_wide, Scalar};

fn pattern(seed: u8) -> [u8; 32] {
    let mut b = [0u8; 32];
    let mut x: u32 = 0x9e37_79b9u32.wrapping_mul(seed as u32 + 1);
    for v in b.iter_mut() {
        x = x.wrapping_mul(1_103_515_245).wrapping_add(12_345);
        *v = (x >> 16) as u8;
    }
    b
}

#[test]
fn narrow_muladd_reference_value() {
    let a: [u8; 32] = [
        0, 0, 0, 30, 0, 0, 0, 0, 0, 0, 40, 0, 0, 0, 0, 0, 124, 0, 0, 0, 0, 0, 0, 0, 0, 0, 0, 0, 0,
        0, 0, 0,
    ];
    let b: [u8; 32] = [
        0, 0, 0, 0, 1, 2, 0, 4, 0, 0, 0, 8, 16, 32, 234, 0, 0, 0, 0, 0, 0, 0, 0, 0, 0, 0, 0, 0, 0,
        0, 0, 1,
    ];
    let c: [u8; 32] = [
        0, 0, 0, 1, 1, 0, 0, 0, 0, 0, 0, 0, 0, 0, 0, 0, 0, 0, 0, 0, 0, 0, 0, 0, 0, 0, 0, 0, 0, 1,
        1, 1,
    ];
    let r: [u8; 32] = [
        199, 123, 129, 187, 98, 220, 200, 84, 69, 52, 169, 69, 239, 116, 129, 54, 19, 231, 107,
        167, 4, 33, 71, 87, 236, 240, 0, 113, 70, 120, 168, 0,
    ];
    let out = muladd_narrow(
        &NarrowScalar::from_bytes(&a),
        &NarrowScalar::from_bytes(&b),
        &NarrowScalar::from_bytes(&c),
    );
    assert_eq!(out.to_bytes(), r);
}

#[test]
fn layouts_agree_on_muladd_and_reduction() {
    let mut cases: Vec<[u8; 32]> = vec![[0u8; 32], [255u8; 32]];
    for seed in 0..12u8 {
        cases.push(pattern(seed));
    }
    for a in cases.iter() {
        let wide = Scalar::from_bytes(a).reduce().to_bytes();
        let narrow = NarrowScalar::from_bytes(a).reduce().to_bytes();
        assert_eq!(wide, narrow);
        for b in cases.iter() {
            let c = pattern(a[0] ^ b[1]);
            let wide = muladd_wide(
                &Scalar::from_bytes(a),
                &Scalar::from_bytes(b),
                &Scalar::from_bytes(&c),
            );
            let narrow = muladd_narrow(
                &NarrowScalar::from_bytes(a),
                &NarrowScalar::from_bytes(b),
                &NarrowScalar::from_bytes(&c),
            );
            assert_eq!(wide.to_bytes(), narrow.to_bytes());
        }
    }
}

#[test]
fn narrow_bytes_round_trip() {
    for seed in 0..8u8 {
        let raw = pattern(seed);
        assert_eq!(NarrowScalar::from_bytes(&raw).to_bytes(), raw);
    }
    assert_eq!(NarrowScalar::zero().to_bytes(), [0u8; 32]);
}

#[test]
fn narrow_canonical_decoding() {
    let order: [u8; 32] = [
        237, 211, 245, 92, 26, 99, 18, 88, 214, 156, 247, 162, 222, 249, 222, 20, 0, 0, 0, 0, 0,
        0, 0, 0, 0, 0, 0, 0, 0, 0, 0, 16,
    ];
    assert!(NarrowScalar::from_canonical_bytes(&order).is_err());
    let mut below = order;
    below[0] -= 1;
    let s = NarrowScalar::from_canonical_bytes(&below);
    assert_eq!(s, Ok(NarrowScalar::from_bytes(&below)));
    assert!(NarrowScalar::from_canonical_bytes(&[255u8; 32]).is_err());
}

#[test]
fn layouts_convert_without_loss() {
    for seed in 0..8u8 {
        let raw = pattern(seed);
        let wide = Scalar::from_bytes(&raw);
        let narrow = NarrowScalar::from_wide(&wide);
        assert_eq!(narrow, NarrowScalar::from_bytes(&raw));
        assert_eq!(narrow.to_wide(), wide);
    }
}

#[test]
fn narrow_wide_product_limbs() {
    let mut two_pow_32 = [0u8; 32];
    two_pow_32[4] = 1;
    let x = NarrowScalar::from_bytes(&two_pow_32);
    let w = NarrowScalar::mul_add_wide(&x, &x, &x);
    let mut expected = [0u32; 16];
    expected[1] = 1;
    expected[2] = 1;
    assert_eq!(w, expected);
    assert_eq!(NarrowScalar::reduce_wide(&w).to_bytes(), {
        let mut b = [0u8; 32];
        b[4] = 1;
        b[8] = 1;
        b
    });
}

#[test]
fn narrow_slide_is_the_wide_slide() {
    for seed in 0..6u8 {
        let raw = pattern(seed);
        let wide = Scalar::from_bytes(&raw);
        let narrow = NarrowScalar::from_bytes(&raw);
        assert_eq!(narrow.bits(), wide.bits());
        assert_eq!(narrow.slide(), wide.slide());
    }
}
