use scalar25519::scalar::Scalar;

const P: i128 = 2_305_843_009_213_693_951;

fn bytes_mod_p(bytes: &[u8; 32]) -> i128 {
    let mut acc: i128 = 0;
    for i in (0..32).rev() {
        acc = (acc * 256 + bytes[i] as i128) % P;
    }
    acc
}

fn digits_mod_p(digits: &[i8; 256]) -> i128 {
    let mut acc: i128 = 0;
    for i in (0..256).rev() {
        acc = (acc * 2 + digits[i] as i128).rem_euclid(P);
    }
    acc
}

fn check_form(digits: &[i8; 256]) {
    for i in 0..256 {
        let d = digits[i];
        assert!(d == 0 || (d % 2 != 0 && (-15..=15).contains(&d)), "digit {} at {}", d, i);
        if d != 0 {
            for k in i + 1..core::cmp::min(i + 5, 256) {
                assert_eq!(digits[k], 0, "digits at {} and {} are too close", i, k);
            }
        }
    }
}

fn sample(seed: u8) -> [u8; 32] {
    let mut b = [0u8; 32];
    let mut x: u32 = seed as u32 * 2_654_435_761u32.wrapping_add(12345);
    for v in b.iter_mut() {
        x = x.wrapping_mul(1_664_525).wrapping_add(1_013_904_223);
        *v = (x >> 24) as u8;
    }
    b[31] &= 0x7f;
    b
}

#[test]
fn bits_are_the_binary_digits() {
    let mut raw = [0u8; 32];
    raw[0] = 0b0000_0101;
    raw[31] = 0x80;
    let bits = Scalar::from_bytes(&raw).bits();
    for (i, bit) in bits.iter().enumerate() {
        let expected = if i == 0 || i == 2 || i == 255 { 1 } else { 0 };
        assert_eq!(*bit, expected, "bit {}", i);
    }
}

#[test]
fn slide_of_zero_is_all_zero() {
    assert_eq!(Scalar::zero().slide(), [0i8; 256]);
}

#[test]
fn slide_of_small_numbers() {
    let mut raw = [0u8; 32];
    raw[0] = 15;
    let mut expected = [0i8; 256];
    expected[0] = 15;
    assert_eq!(Scalar::from_bytes(&raw).slide(), expected);

    // 31 = -1 + 32
    raw[0] = 31;
    let mut expected = [0i8; 256];
    expected[0] = -1;
    expected[5] = 1;
    assert_eq!(Scalar::from_bytes(&raw).slide(), expected);

    // 17 = -15 + 32
    raw[0] = 17;
    let mut expected = [0i8; 256];
    expected[0] = -15;
    expected[5] = 1;
    assert_eq!(Scalar::from_bytes(&raw).slide(), expected);
}

#[test]
fn slide_leaves_digits_five_apart() {
    // 33 = 1 + 32: the second digit is too far up to merge into the first.
    let mut raw = [0u8; 32];
    raw[0] = 33;
    let mut expected = [0i8; 256];
    expected[0] = 1;
    expected[5] = 1;
    assert_eq!(Scalar::from_bytes(&raw).slide(), expected);
}

#[test]
fn slide_writes_the_scalar() {
    for seed in 0..40u8 {
        let raw = sample(seed);
        let digits = Scalar::from_bytes(&raw).slide();
        check_form(&digits);
        assert_eq!(digits_mod_p(&digits), bytes_mod_p(&raw), "seed {}", seed);
    }
}

#[test]
fn slide_of_reduced_scalars() {
    for seed in 0..10u8 {
        let mut raw = sample(seed);
        raw[31] |= 0x80;
        let s = Scalar::from_bytes(&raw).reduce();
        let digits = s.slide();
        check_form(&digits);
        assert_eq!(digits_mod_p(&digits), bytes_mod_p(&s.to_bytes()), "seed {}", seed);
    }
}

#[test]
fn slide_carry_chain_across_the_row() {
    // 2^255 - 1: a borrow at the bottom carries through every position.
    let mut raw = [255u8; 32];
    raw[31] = 0x7f;
    let mut expected = [0i8; 256];
    expected[0] = -1;
    expected[255] = 1;
    assert_eq!(Scalar::from_bytes(&raw).slide(), expected);
}

#[test]
fn slide_of_all_ones_loses_the_top_carry() {
    // 2^256 - 1: the carry leaves the row, and the digits write -1.
    let mut expected = [0i8; 256];
    expected[0] = -1;
    assert_eq!(Scalar::from_bytes(&[255u8; 32]).slide(), expected);
}
