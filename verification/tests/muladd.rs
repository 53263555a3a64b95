use scalar25519::scalar::{muladd, CanonicalityError, Scalar};

struct MulAddIv {
    a: [u8; 32],
    b: [u8; 32],
    c: [u8; 32],
    r: [u8; 32],
}

const ORDER: [u8; 32] = [
    237, 211, 245, 92, 26, 99, 18, 88, 214, 156, 247, 162, 222, 249, 222, 20, 0, 0, 0, 0, 0, 0, 0,
    0, 0, 0, 0, 0, 0, 0, 0, 16,
];

const ORDER_LESS_ONE: [u8; 32] = [
    236, 211, 245, 92, 26, 99, 18, 88, 214, 156, 247, 162, 222, 249, 222, 20, 0, 0, 0, 0, 0, 0, 0,
    0, 0, 0, 0, 0, 0, 0, 0, 16,
];

const ALL_ONES_REDUCED: [u8; 32] = [
    28, 149, 152, 141, 116, 49, 236, 214, 112, 207, 125, 115, 244, 91, 239, 198, 254, 255, 255,
    255, 255, 255, 255, 255, 255, 255, 255, 255, 255, 255, 255, 15,
];

fn one() -> [u8; 32] {
    let mut b = [0u8; 32];
    b[0] = 1;
    b
}

fn counting() -> [u8; 32] {
    let mut b = [0u8; 32];
    for (i, x) in b.iter_mut().enumerate() {
        *x = (i + 1) as u8;
    }
    b
}

#[test]
fn muladd_ivs() {
    let ivs = [
        // A * 0 + C
        MulAddIv {
            a: [
                1, 0, 0, 0, 0xff, 0, 0, 0, 0, 0, 0, 0, 0, 0, 0, 0, 0, 0, 0, 0, 0, 0, 0, 0, 0, 0, 0,
                0, 0, 0, 0, 0,
            ],
            b: [
                0, 0, 0, 0, 0, 0, 0, 0, 0, 0, 0, 0, 0, 0, 0, 0, 0, 0, 0, 0, 0, 0, 0, 0, 0, 0, 0, 0,
                0, 0, 0, 0,
            ],
            c: [
                1, 2, 3, 4, 5, 6, 7, 8, 9, 10, 12, 13, 15, 16, 0, 0, 0, 0, 0, 0, 0, 0, 0, 0, 0, 0,
                0, 0, 0, 0, 0, 0,
            ],
            r: [
                1, 2, 3, 4, 5, 6, 7, 8, 9, 10, 12, 13, 15, 16, 0, 0, 0, 0, 0, 0, 0, 0, 0, 0, 0, 0,
                0, 0, 0, 0, 0, 0,
            ],
        },
        // B * 1 + 0
        MulAddIv {
            a: [
                1, 0, 0, 0, 0, 0, 0, 0, 0, 0, 0, 0, 0, 0, 0, 0, 0, 0, 0, 0, 0, 0, 0, 0, 0, 0, 0, 0,
                0, 0, 0, 0,
            ],
            b: [
                1, 2, 3, 4, 5, 6, 7, 8, 9, 10, 12, 13, 15, 26, 17, 18, 19, 20, 1, 2, 3, 4, 5, 6, 7,
                1, 2, 3, 4, 5, 6, 1,
            ],
            c: [
                0, 0, 0, 0, 0, 0, 0, 0, 0, 0, 0, 0, 0, 0, 0, 0, 0, 0, 0, 0, 0, 0, 0, 0, 0, 0, 0, 0,
                0, 0, 0, 0,
            ],
            r: [
                1, 2, 3, 4, 5, 6, 7, 8, 9, 10, 12, 13, 15, 26, 17, 18, 19, 20, 1, 2, 3, 4, 5, 6, 7,
                1, 2, 3, 4, 5, 6, 1,
            ],
        },
        // B * 1 + C
        MulAddIv {
            a: [
                1, 0, 0, 0, 0, 0, 0, 0, 0, 0, 0, 0, 0, 0, 0, 0, 0, 0, 0, 0, 0, 0, 0, 0, 0, 0, 0, 0,
                0, 0, 0, 0,
            ],
            b: [
                1, 2, 3, 4, 5, 6, 7, 8, 9, 10, 12, 13, 15, 16, 17, 18, 19, 20, 1, 2, 3, 4, 5, 6, 7,
                1, 2, 3, 4, 5, 6, 1,
            ],
            c: [
                10, 20, 30, 40, 50, 60, 0, 0, 0, 0, 0, 0, 0, 0, 0, 0, 0, 0, 0, 0, 0, 0, 0, 0, 0, 0,
                0, 0, 0, 0, 0, 0,
            ],
            r: [
                11, 22, 33, 44, 55, 66, 7, 8, 9, 10, 12, 13, 15, 16, 17, 18, 19, 20, 1, 2, 3, 4, 5,
                6, 7, 1, 2, 3, 4, 5, 6, 1,
            ],
        },
        MulAddIv {
            a: [
                0, 0, 0, 30, 0, 0, 0, 0, 0, 0, 40, 0, 0, 0, 0, 0, 124, 0, 0, 0, 0, 0, 0, 0, 0, 0,
                0, 0, 0, 0, 0, 0,
            ],
            b: [
                0, 0, 0, 0, 1, 2, 0, 4, 0, 0, 0, 8, 16, 32, 234, 0, 0, 0, 0, 0, 0, 0, 0, 0, 0, 0,
                0, 0, 0, 0, 0, 1,
            ],
            c: [
                0, 0, 0, 1, 1, 0, 0, 0, 0, 0, 0, 0, 0, 0, 0, 0, 0, 0, 0, 0, 0, 0, 0, 0, 0, 0, 0, 0,
                0, 1, 1, 1,
            ],
            r: [
                199, 123, 129, 187, 98, 220, 200, 84, 69, 52, 169, 69, 239, 116, 129, 54, 19, 231,
                107, 167, 4, 33, 71, 87, 236, 240, 0, 113, 70, 120, 168, 0,
            ],
        },
    ];

    for (i, iv) in ivs.iter().enumerate() {
        let out = muladd(
            &Scalar::from_bytes(&iv.a),
            &Scalar::from_bytes(&iv.b),
            &Scalar::from_bytes(&iv.c),
        );
        assert_eq!(iv.r, out.to_bytes(), "IV test {} failed", i);
    }
}

#[test]
fn muladd_of_unreduced_operands() {
    let a = Scalar::from_bytes(&[7u8; 32]);
    let b = Scalar::from_bytes(&counting());
    let c = Scalar::from_bytes(&[255u8; 32]);
    let expected: [u8; 32] = [
        203, 37, 104, 113, 93, 42, 138, 188, 209, 78, 71, 238, 150, 221, 136, 75, 169, 55, 95,
        185, 226, 136, 176, 43, 177, 89, 10, 76, 65, 157, 177, 4,
    ];
    assert_eq!(muladd(&a, &b, &c).to_bytes(), expected);
}

#[test]
fn muladd_of_largest_operands() {
    let m = Scalar::from_bytes(&[255u8; 32]);
    let expected: [u8; 32] = [
        209, 77, 249, 19, 137, 67, 44, 37, 173, 96, 255, 151, 145, 185, 253, 29, 103, 190, 245,
        23, 210, 115, 236, 206, 61, 154, 48, 124, 27, 65, 153, 3,
    ];
    assert_eq!(muladd(&m, &m, &m).to_bytes(), expected);
}

#[test]
fn muladd_of_multiples_of_the_order_is_zero() {
    let l = Scalar::from_bytes(&ORDER);
    let x = Scalar::from_bytes(&counting());
    assert_eq!(muladd(&l, &x, &l).to_bytes(), [0u8; 32]);
    let m = Scalar::from_bytes(&ORDER_LESS_ONE);
    assert_eq!(muladd(&m, &m, &m).to_bytes(), [0u8; 32]);
}

#[test]
fn muladd_zero_times_b_is_c_reduced() {
    let zero = Scalar::from_bytes(&[0u8; 32]);
    let b = Scalar::from_bytes(&counting());
    let c = Scalar::from_bytes(&[255u8; 32]);
    assert_eq!(muladd(&zero, &b, &c).to_bytes(), ALL_ONES_REDUCED);
    assert_eq!(muladd(&zero, &b, &c), c.reduce());
}

#[test]
fn muladd_a_times_one_is_a_reduced() {
    let a = Scalar::from_bytes(&[255u8; 32]);
    let one = Scalar::from_bytes(&one());
    let zero = Scalar::zero();
    assert_eq!(muladd(&a, &one, &zero).to_bytes(), ALL_ONES_REDUCED);
}

#[test]
fn muladd_commutes_in_its_factors() {
    let a = Scalar::from_bytes(&[7u8; 32]);
    let b = Scalar::from_bytes(&counting());
    let c = Scalar::from_bytes(&[99u8; 32]);
    assert_eq!(muladd(&a, &b, &c), muladd(&b, &a, &c));
}

#[test]
fn from_bytes_keeps_any_pattern() {
    let raw = [255u8; 32];
    assert_eq!(Scalar::from_bytes(&raw).to_bytes(), raw);
    assert_eq!(Scalar::from_bytes(&ORDER).to_bytes(), ORDER);
    assert_eq!(Scalar::from_bytes(&counting()).to_bytes(), counting());
    assert_eq!(Scalar::zero().to_bytes(), [0u8; 32]);
}

#[test]
fn canonical_bytes_round_trip() {
    let s = Scalar::from_bytes(&counting()).reduce();
    assert_eq!(Scalar::from_canonical_bytes(&s.to_bytes()), Ok(s));
    let top = Scalar::from_bytes(&ORDER_LESS_ONE);
    assert_eq!(Scalar::from_canonical_bytes(&top.to_bytes()), Ok(top));
    assert_eq!(Scalar::from_canonical_bytes(&[0u8; 32]), Ok(Scalar::zero()));
}

#[test]
fn the_order_and_above_are_not_canonical() {
    assert_eq!(Scalar::from_canonical_bytes(&ORDER), Err(CanonicalityError));
    assert_eq!(Scalar::from_canonical_bytes(&[255u8; 32]), Err(CanonicalityError));
    let mut above = ORDER;
    above[0] += 1;
    assert_eq!(Scalar::from_canonical_bytes(&above), Err(CanonicalityError));
    assert!(Scalar::from_canonical_bytes(&ORDER_LESS_ONE).is_ok());
}

#[test]
fn reduce_brings_into_range() {
    assert_eq!(Scalar::from_bytes(&ORDER).reduce().to_bytes(), [0u8; 32]);
    let mut above = ORDER;
    above[0] += 1;
    assert_eq!(Scalar::from_bytes(&above).reduce().to_bytes(), one());
    assert_eq!(Scalar::from_bytes(&ORDER_LESS_ONE).reduce().to_bytes(), ORDER_LESS_ONE);
    assert_eq!(Scalar::from_bytes(&[255u8; 32]).reduce().to_bytes(), ALL_ONES_REDUCED);
    assert_eq!(Scalar::from_bytes_mod(&[255u8; 32]).to_bytes(), ALL_ONES_REDUCED);
}

#[test]
fn reduce_twice_is_reduce_once() {
    for raw in [[255u8; 32], ORDER, counting(), [0u8; 32]] {
        let once = Scalar::from_bytes(&raw).reduce();
        assert_eq!(once.reduce(), once);
    }
}

#[test]
fn reduce_wide_reads_eight_limbs() {
    let mut w = [0u64; 8];
    w[4] = 1;
    // 2^256 mod l
    let one = Scalar::from_bytes(&one());
    let expected = muladd(&Scalar::from_bytes(&[255u8; 32]), &one, &one);
    assert_eq!(Scalar::reduce_wide(&w), expected);
    let wide = Scalar::mul_add_wide(&one, &one, &one);
    assert_eq!(wide, [2, 0, 0, 0, 0, 0, 0, 0]);
}

#[test]
fn zero_and_one_encode_as_expected() {
    assert_eq!(Scalar::one().to_bytes(), one());
    assert_eq!(Scalar::zero().to_bytes(), [0u8; 32]);
    assert_eq!(Scalar::from_bytes(&one()), Scalar::one());
    let two = muladd(&Scalar::one(), &Scalar::one(), &Scalar::one());
    let mut expected = [0u8; 32];
    expected[0] = 2;
    assert_eq!(two.to_bytes(), expected);
}

#[test]
fn encoding_is_little_endian() {
    let mut raw = [0u8; 32];
    raw[8] = 1;
    // 2^64 = (2^32)^2
    let mut half = [0u8; 32];
    half[4] = 1;
    let h = Scalar::from_bytes(&half);
    assert_eq!(muladd(&h, &h, &Scalar::zero()).to_bytes(), raw);
}
