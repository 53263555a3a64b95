//! Multi-word natural numbers: the value of a row of 64-bit limbs and the
//! single-limb steps that the scalar arithmetic is assembled from.

use vstd::prelude::*;

verus! {

/// The weight of one limb, `2^64`.
pub open spec fn limb_base() -> int {
    0x1_0000_0000_0000_0000
}

/// The natural number held by four limbs, least significant first.
pub open spec fn value4(x0: u64, x1: u64, x2: u64, x3: u64) -> int {
    x0 + limb_base() * (x1 + limb_base() * (x2 + limb_base() * x3))
}

/// The natural number held by eight limbs, least significant first.
pub open spec fn value8(w: [u64; 8]) -> int {
    w[0] + limb_base() * (w[1] + limb_base() * (w[2] + limb_base() * (w[3] + limb_base() * (w[4]
        + limb_base() * (w[5] + limb_base() * (w[6] + limb_base() * w[7]))))))
}

/// Multiplies two limbs and adds two more: the double-limb result never
/// overflows, because `(2^64-1)^2 + 2(2^64-1) = 2^128 - 1`.
pub fn mul_add_carry(a: u64, b: u64, c: u64, d: u64) -> (r: (u64, u64))
    ensures
        r.0 + limb_base() * r.1 == a * b + c + d,
{
    proof {
        assert(a * b <= 0xffff_ffff_ffff_ffff * 0xffff_ffff_ffff_ffff) by (nonlinear_arith)
            requires
                0 <= a <= 0xffff_ffff_ffff_ffff,
                0 <= b <= 0xffff_ffff_ffff_ffff,
        ;
        assert(0 <= a * b) by (nonlinear_arith)
            requires
                0 <= a,
                0 <= b,
        ;
    }
    let t: u128 = (a as u128) * (b as u128) + (c as u128) + (d as u128);
    let lo: u64 = (t % 0x1_0000_0000_0000_0000u128) as u64;
    let hi: u64 = (t / 0x1_0000_0000_0000_0000u128) as u64;
    (lo, hi)
}

/// Adds two limbs and a carry bit; returns the low limb and the carry out.
pub fn add_carry(a: u64, b: u64, carry: u64) -> (r: (u64, u64))
    requires
        carry <= 1,
    ensures
        r.1 <= 1,
        r.0 + limb_base() * r.1 == a + b + carry,
{
    let t: u128 = (a as u128) + (b as u128) + (carry as u128);
    let lo: u64 = (t % 0x1_0000_0000_0000_0000u128) as u64;
    let hi: u64 = (t / 0x1_0000_0000_0000_0000u128) as u64;
    (lo, hi)
}

/// Subtracts a limb and a borrow bit from a limb; returns the low limb of the
/// difference and the borrow out.
pub fn sub_borrow(a: u64, b: u64, borrow: u64) -> (r: (u64, u64))
    requires
        borrow <= 1,
    ensures
        r.1 <= 1,
        r.0 - limb_base() * r.1 == a - b - borrow,
{
    let t: u128 = 0x1_0000_0000_0000_0000u128 + (a as u128) - (b as u128) - (borrow as u128);
    let lo: u64 = (t % 0x1_0000_0000_0000_0000u128) as u64;
    let hi: u64 = 1 - ((t / 0x1_0000_0000_0000_0000u128) as u64);
    (lo, hi)
}

/// Chooses between two limbs without branching: `a` where `pick` is 1, `b`
/// where it is 0.
pub fn select(pick: u64, a: u64, b: u64) -> (r: u64)
    requires
        pick <= 1,
    ensures
        r == if pick == 1 { a } else { b },
{
    let mask: u64 = 0u64.wrapping_sub(pick);
    let r: u64 = (a & mask) | (b & !mask);
    proof {
        assert(pick == 1 ==> mask == 0xffff_ffff_ffff_ffffu64);
        assert(pick == 0 ==> mask == 0u64);
        assert(mask == 0xffff_ffff_ffff_ffffu64 ==> (a & mask) | (b & !mask) == a) by (bit_vector);
        assert(mask == 0u64 ==> (a & mask) | (b & !mask) == b) by (bit_vector);
    }
    r
}

/// Multiplies a four-limb number by one limb and adds another four-limb
/// number: one row of a schoolbook multiplication. The result has five
/// limbs, least significant first.
pub fn mul_row(x: u64, b: (u64, u64, u64, u64), c: (u64, u64, u64, u64)) -> (r: (
    u64,
    u64,
    u64,
    u64,
    u64,
))
    ensures
        r.0 + limb_base() * value4(r.1, r.2, r.3, r.4) == x * value4(b.0, b.1, b.2, b.3) + value4(
            c.0,
            c.1,
            c.2,
            c.3,
        ),
{
    let (r0, k0) = mul_add_carry(x, b.0, c.0, 0);
    let (r1, k1) = mul_add_carry(x, b.1, c.1, k0);
    let (r2, k2) = mul_add_carry(x, b.2, c.2, k1);
    let (r3, k3) = mul_add_carry(x, b.3, c.3, k2);
    proof {
        let w = limb_base();
        assert(x * value4(b.0, b.1, b.2, b.3) == x * b.0 + w * (x * b.1 + w * (x * b.2 + w * (x
            * b.3)))) by (nonlinear_arith)
            requires
                value4(b.0, b.1, b.2, b.3) == b.0 + w * (b.1 + w * (b.2 + w * b.3)),
        ;
    }
    (r0, r1, r2, r3, k3)
}

} // verus!
