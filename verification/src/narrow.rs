//! The narrow-word layout: the same scalars held in eight 32-bit limbs, with
//! 64-bit intermediate products, for machines whose registers are 32 bits
//! wide. Two neighbouring limbs form a pair that stands for one 64-bit word,
//! and the arithmetic proceeds pair by pair.

use vstd::prelude::*;
use vstd::arithmetic::div_mod::{lemma_fundamental_div_mod_converse, lemma_small_mod};
use vstd::arithmetic::power2::{lemma2_to64, lemma_pow2_unfold, pow2};
use crate::digits::{binary_from, digits_value};
use crate::limbs::limb_base;
use crate::modular::{lemma_mod_absorb, lemma_mod_add_left, lemma_mod_double, lemma_split_unique};
use crate::naf::{apart, is_naf_digit};
use crate::scalar::{
    group_order,
    le_value,
    le_word,
    muladd_value,
    CanonicalityError,
    Scalar,
    ORDER_0,
    ORDER_1,
    ORDER_2,
    ORDER_3,
};

verus! {

/// The weight of one narrow limb, `2^32`.
pub open spec fn narrow_base() -> int {
    0x1_0000_0000
}

/// Two narrow limbs, the less significant first.
pub type Pair = (u32, u32);

/// The number below `2^64` that a pair of narrow limbs holds.
#[verifier::opaque]
pub open spec fn pair_value(p: Pair) -> int {
    p.0 + narrow_base() * p.1
}

/// The number held by four pairs, given by their values, least significant
/// first.
pub open spec fn pairs_value(v0: int, v1: int, v2: int, v3: int) -> int {
    v0 + limb_base() * (v1 + limb_base() * (v2 + limb_base() * v3))
}

/// The number held by sixteen narrow limbs, least significant first.
pub open spec fn narrow_wide_value(w: [u32; 16]) -> int {
    pair_value((w[0], w[1])) + limb_base() * (pair_value((w[2], w[3])) + limb_base() * (pair_value(
        (w[4], w[5]),
    ) + limb_base() * (pair_value((w[6], w[7])) + limb_base() * (pair_value((w[8], w[9]))
        + limb_base() * (pair_value((w[10], w[11])) + limb_base() * (pair_value((w[12], w[13]))
        + limb_base() * pair_value((w[14], w[15]))))))))
}

/// A pair holds a number in `[0, 2^64)`.
pub proof fn lemma_pair_range(p: Pair)
    ensures
        0 <= pair_value(p) < limb_base(),
{
    reveal(pair_value);
}

/// Multiplies two narrow limbs and adds two more; the result fits in two
/// limbs.
pub fn mul_add_carry_narrow(a: u32, b: u32, c: u32, d: u32) -> (r: (u32, u32))
    ensures
        r.0 + narrow_base() * r.1 == a * b + c + d,
{
    proof {
        assert(0 <= a * b <= 0xffff_ffff * 0xffff_ffff) by (nonlinear_arith)
            requires
                0 <= a <= 0xffff_ffff,
                0 <= b <= 0xffff_ffff,
        ;
    }
    let t: u64 = (a as u64) * (b as u64) + (c as u64) + (d as u64);
    let lo: u32 = (t % 0x1_0000_0000u64) as u32;
    let hi: u32 = (t / 0x1_0000_0000u64) as u32;
    (lo, hi)
}

/// Chooses between two narrow limbs without branching: `a` where `pick` is
/// 1, `b` where it is 0.
pub fn select_narrow(pick: u32, a: u32, b: u32) -> (r: u32)
    requires
        pick <= 1,
    ensures
        r == if pick == 1 { a } else { b },
{
    let mask: u32 = 0u32.wrapping_sub(pick);
    let r: u32 = (a & mask) | (b & !mask);
    proof {
        assert(pick == 1 ==> mask == 0xffff_ffffu32);
        assert(pick == 0 ==> mask == 0u32);
        assert(mask == 0xffff_ffffu32 ==> (a & mask) | (b & !mask) == a) by (bit_vector);
        assert(mask == 0u32 ==> (a & mask) | (b & !mask) == b) by (bit_vector);
    }
    r
}

/// Chooses between two pairs without branching.
pub fn select_pair(pick: u32, a: Pair, b: Pair) -> (r: Pair)
    requires
        pick <= 1,
    ensures
        r == if pick == 1 { a } else { b },
{
    (select_narrow(pick, a.0, b.0), select_narrow(pick, a.1, b.1))
}

/// Adds two pairs and a carry bit; returns the low pair and the carry out.
pub fn add_pair(a: Pair, b: Pair, carry: u32) -> (r: (Pair, u32))
    requires
        carry <= 1,
    ensures
        r.1 <= 1,
        pair_value(r.0) + limb_base() * r.1 == pair_value(a) + pair_value(b) + carry,
{
    reveal(pair_value);
    let t0: u64 = (a.0 as u64) + (b.0 as u64) + (carry as u64);
    let s0: u32 = (t0 % 0x1_0000_0000u64) as u32;
    let t1: u64 = (a.1 as u64) + (b.1 as u64) + t0 / 0x1_0000_0000u64;
    let s1: u32 = (t1 % 0x1_0000_0000u64) as u32;
    ((s0, s1), (t1 / 0x1_0000_0000u64) as u32)
}

/// Subtracts a pair and a borrow bit from a pair; returns the low pair of the
/// difference and the borrow out.
pub fn sub_pair(a: Pair, b: Pair, borrow: u32) -> (r: (Pair, u32))
    requires
        borrow <= 1,
    ensures
        r.1 <= 1,
        pair_value(r.0) - limb_base() * r.1 == pair_value(a) - pair_value(b) - borrow,
{
    reveal(pair_value);
    let t0: u64 = 0x1_0000_0000u64 + (a.0 as u64) - (b.0 as u64) - (borrow as u64);
    let d0: u32 = (t0 % 0x1_0000_0000u64) as u32;
    let e0: u64 = 1 - t0 / 0x1_0000_0000u64;
    let t1: u64 = 0x1_0000_0000u64 + (a.1 as u64) - (b.1 as u64) - e0;
    let d1: u32 = (t1 % 0x1_0000_0000u64) as u32;
    ((d0, d1), 1 - ((t1 / 0x1_0000_0000u64) as u32))
}

/// The product of two two-digit numbers in base `n`, digit by digit.
proof fn lemma_product_of_pairs(a0: int, a1: int, b0: int, b1: int, n: int)
    ensures
        (a0 + n * a1) * (b0 + n * b1) == a0 * b0 + n * (a0 * b1) + n * (a1 * b0) + n * (n * (a1
            * b1)),
{
    let b = b0 + n * b1;
    assert((a0 + n * a1) * b == a0 * b + n * (a1 * b)) by (nonlinear_arith);
    assert(a0 * b == a0 * b0 + n * (a0 * b1)) by (nonlinear_arith)
        requires
            b == b0 + n * b1,
    ;
    assert(a1 * b == a1 * b0 + n * (a1 * b1)) by (nonlinear_arith)
        requires
            b == b0 + n * b1,
    ;
    assert(n * (a1 * b0 + n * (a1 * b1)) == n * (a1 * b0) + n * (n * (a1 * b1)))
        by (nonlinear_arith);
}

/// Multiplies two pairs and adds two more: a two-by-two schoolbook product
/// of narrow limbs. Returns the low and the high pair of the result.
pub fn mul_add_carry_pair(a: Pair, b: Pair, c: Pair, d: Pair) -> (r: (Pair, Pair))
    ensures
        pair_value(r.0) + limb_base() * pair_value(r.1) == pair_value(a) * pair_value(b)
            + pair_value(c) + pair_value(d),
{
    reveal(pair_value);
    let (r0, k0) = mul_add_carry_narrow(a.0, b.0, c.0, d.0);
    let (r1, k1) = mul_add_carry_narrow(a.0, b.1, c.1, k0);
    let (s1, j1) = mul_add_carry_narrow(a.1, b.0, r1, d.1);
    let (s2, j2) = mul_add_carry_narrow(a.1, b.1, k1, j1);
    proof {
        lemma_product_of_pairs(a.0 as int, a.1 as int, b.0 as int, b.1 as int, narrow_base());
    }
    ((r0, s1), (s2, j2))
}

/// Multiplies a four-pair number by one pair and adds another four-pair
/// number: one row of a schoolbook multiplication. Returns the lowest pair
/// of the result and the four pairs above it.
pub fn mul_row_narrow(x: Pair, b: (Pair, Pair, Pair, Pair), c: (Pair, Pair, Pair, Pair)) -> (r: (
    Pair,
    (Pair, Pair, Pair, Pair),
))
    ensures
        pair_value(r.0) + limb_base() * pairs_value(
            pair_value(r.1.0),
            pair_value(r.1.1),
            pair_value(r.1.2),
            pair_value(r.1.3),
        ) == pair_value(x) * pairs_value(
            pair_value(b.0),
            pair_value(b.1),
            pair_value(b.2),
            pair_value(b.3),
        ) + pairs_value(pair_value(c.0), pair_value(c.1), pair_value(c.2), pair_value(c.3)),
{
    let zero: Pair = (0, 0);
    let (r0, k0) = mul_add_carry_pair(x, b.0, c.0, zero);
    let (r1, k1) = mul_add_carry_pair(x, b.1, c.1, k0);
    let (r2, k2) = mul_add_carry_pair(x, b.2, c.2, k1);
    let (r3, k3) = mul_add_carry_pair(x, b.3, c.3, k2);
    proof {
        let w = limb_base();
        let xv = pair_value(x);
        let b0 = pair_value(b.0);
        let b1 = pair_value(b.1);
        let b2 = pair_value(b.2);
        let b3 = pair_value(b.3);
        assert(pair_value(zero) == 0) by {
            reveal(pair_value);
        }
        assert(xv * (b0 + w * (b1 + w * (b2 + w * b3))) == xv * b0 + w * (xv * b1 + w * (xv * b2
            + w * (xv * b3)))) by (nonlinear_arith);
    }
    (r0, (r1, r2, r3, k3))
}

/// The scalars of the narrow layout: an integer in `[0, 2^256)`.
#[derive(Clone, Copy, Debug, PartialEq, Eq, Structural)]
pub struct NarrowScalar {
    n0: u32,
    n1: u32,
    n2: u32,
    n3: u32,
    n4: u32,
    n5: u32,
    n6: u32,
    n7: u32,
}

impl View for NarrowScalar {
    type V = int;

    /// The integer that the scalar holds.
    closed spec fn view(&self) -> int {
        pairs_value(
            pair_value((self.n0, self.n1)),
            pair_value((self.n2, self.n3)),
            pair_value((self.n4, self.n5)),
            pair_value((self.n6, self.n7)),
        )
    }
}

/// Whether `bytes` are the 32 little-endian bytes of the scalar `s`.
pub open spec fn narrow_encodes(bytes: Seq<u8>, s: NarrowScalar) -> bool {
    bytes.len() == 32 && le_value(bytes) == s@
}

/// Reads eight bytes as a pair of narrow limbs.
fn load_pair(bytes: &[u8; 32], at: usize) -> (r: Pair)
    requires
        at + 8 <= 32,
    ensures
        pair_value(r) == le_word(bytes@, at as int),
{
    reveal(pair_value);
    let b0: u32 = bytes[at] as u32;
    let b1: u32 = bytes[at + 1] as u32;
    let b2: u32 = bytes[at + 2] as u32;
    let b3: u32 = bytes[at + 3] as u32;
    let b4: u32 = bytes[at + 4] as u32;
    let b5: u32 = bytes[at + 5] as u32;
    let b6: u32 = bytes[at + 6] as u32;
    let b7: u32 = bytes[at + 7] as u32;
    (b0 + 256 * (b1 + 256 * (b2 + 256 * b3)), b4 + 256 * (b5 + 256 * (b6 + 256 * b7)))
}

/// Writes a pair of narrow limbs as eight bytes.
fn store_pair(p: Pair) -> (r: [u8; 8])
    ensures
        le_word(r@, 0) == pair_value(p),
{
    reveal(pair_value);
    let x1: u32 = p.0 / 256;
    let x2: u32 = x1 / 256;
    let x3: u32 = x2 / 256;
    let y1: u32 = p.1 / 256;
    let y2: u32 = y1 / 256;
    let y3: u32 = y2 / 256;
    [
        (p.0 % 256) as u8,
        (x1 % 256) as u8,
        (x2 % 256) as u8,
        x3 as u8,
        (p.1 % 256) as u8,
        (y1 % 256) as u8,
        (y2 % 256) as u8,
        y3 as u8,
    ]
}

/// The pairs of the group order.
fn order_pairs() -> (r: (Pair, Pair, Pair, Pair))
    ensures
        pair_value(r.0) == ORDER_0,
        pair_value(r.1) == ORDER_1,
        pair_value(r.2) == ORDER_2,
        pair_value(r.3) == ORDER_3,
{
    reveal(pair_value);
    ((0x5cf5_d3ed, 0x5812_631a), (0xa2f7_9cd6, 0x14de_f9de), (0, 0), (0, 0x1000_0000))
}

impl NarrowScalar {
    /// Whether the scalar is below the group order.
    pub open spec fn is_canonical(&self) -> bool {
        self@ < group_order()
    }

    /// The scalar made of four pairs.
    fn from_pairs(p: (Pair, Pair, Pair, Pair)) -> (r: NarrowScalar)
        ensures
            r@ == pairs_value(
                pair_value(p.0),
                pair_value(p.1),
                pair_value(p.2),
                pair_value(p.3),
            ),
    {
        NarrowScalar {
            n0: p.0.0,
            n1: p.0.1,
            n2: p.1.0,
            n3: p.1.1,
            n4: p.2.0,
            n5: p.2.1,
            n6: p.3.0,
            n7: p.3.1,
        }
    }

    /// The four pairs of the scalar.
    fn pairs(&self) -> (p: (Pair, Pair, Pair, Pair))
        ensures
            self@ == pairs_value(
                pair_value(p.0),
                pair_value(p.1),
                pair_value(p.2),
                pair_value(p.3),
            ),
    {
        ((self.n0, self.n1), (self.n2, self.n3), (self.n4, self.n5), (self.n6, self.n7))
    }

    /// The scalar zero.
    pub fn zero() -> (r: NarrowScalar)
        ensures
            r@ == 0,
    {
        reveal(pair_value);
        NarrowScalar { n0: 0, n1: 0, n2: 0, n3: 0, n4: 0, n5: 0, n6: 0, n7: 0 }
    }

    /// Reads 32 little-endian bytes as a scalar, without reducing.
    pub fn from_bytes(bytes: &[u8; 32]) -> (r: NarrowScalar)
        ensures
            r@ == le_value(bytes@),
    {
        NarrowScalar::from_pairs(
            (
                load_pair(bytes, 0),
                load_pair(bytes, 8),
                load_pair(bytes, 16),
                load_pair(bytes, 24),
            ),
        )
    }

    /// The same scalar in the narrow layout: a rearrangement of its bits.
    pub fn from_wide(s: &Scalar) -> (r: NarrowScalar)
        ensures
            r@ == s@,
    {
        NarrowScalar::from_bytes(&s.to_bytes())
    }

    /// The same scalar in the wide layout: a rearrangement of its bits.
    pub fn to_wide(&self) -> (r: Scalar)
        ensures
            r@ == self@,
    {
        Scalar::from_bytes(&self.to_bytes())
    }

    /// The scalar's 256 binary digits, least significant first.
    pub fn bits(&self) -> (r: [i8; 256])
        ensures
            binary_from(r@, 0),
            digits_value(r@) == self@,
            (r[255] == 1) == (self@ >= pow2(255)),
    {
        self.to_wide().bits()
    }

    /// The signed sliding-window digits of the scalar, as the wide layout
    /// gives them: each digit zero or odd with magnitude at most 15, any two
    /// nonzero digits at least five positions apart, and the digits writing
    /// the scalar where it is below `2^255`.
    pub fn slide(&self) -> (r: [i8; 256])
        ensures
            forall|i: int| 0 <= i < 256 ==> is_naf_digit(#[trigger] r[i]),
            apart(r@, 5),
            digits_value(r@) == self@ || digits_value(r@) == self@ - pow2(256),
            self@ < pow2(255) ==> digits_value(r@) == self@,
    {
        self.to_wide().slide()
    }

    /// Reads 32 little-endian bytes as a canonical scalar. Bytes that write
    /// a number not below the group order are refused, never reduced.
    pub fn from_canonical_bytes(bytes: &[u8; 32]) -> (r: Result<NarrowScalar, CanonicalityError>)
        ensures
            r.is_ok() <==> le_value(bytes@) < group_order(),
            r.is_ok() ==> r.unwrap()@ == le_value(bytes@),
    {
        let s = NarrowScalar::from_bytes(bytes);
        let p = s.pairs();
        let l = order_pairs();
        let (_d0, e0) = sub_pair(p.0, l.0, 0);
        let (_d1, e1) = sub_pair(p.1, l.1, e0);
        let (_d2, e2) = sub_pair(p.2, l.2, e1);
        let (_d3, e3) = sub_pair(p.3, l.3, e2);
        proof {
            lemma_pair_range(_d0);
            lemma_pair_range(_d1);
            lemma_pair_range(_d2);
            lemma_pair_range(_d3);
        }
        if e3 == 1 {
            Ok(s)
        } else {
            Err(CanonicalityError)
        }
    }

    /// Writes the scalar as 32 little-endian bytes.
    pub fn to_bytes(&self) -> (r: [u8; 32])
        ensures
            narrow_encodes(r@, *self),
    {
        let p = self.pairs();
        let a = store_pair(p.0);
        let b = store_pair(p.1);
        let c = store_pair(p.2);
        let d = store_pair(p.3);
        let r = [
            a[0], a[1], a[2], a[3], a[4], a[5], a[6], a[7],
            b[0], b[1], b[2], b[3], b[4], b[5], b[6], b[7],
            c[0], c[1], c[2], c[3], c[4], c[5], c[6], c[7],
            d[0], d[1], d[2], d[3], d[4], d[5], d[6], d[7],
        ];
        proof {
            assert(le_word(r@, 0) == le_word(a@, 0));
            assert(le_word(r@, 8) == le_word(b@, 0));
            assert(le_word(r@, 16) == le_word(c@, 0));
            assert(le_word(r@, 24) == le_word(d@, 0));
        }
        r
    }

    /// Adds two canonical scalars modulo the group order. The sum is
    /// corrected by a masked subtraction of the order, not by a branch.
    fn add_mod(&self, other: &NarrowScalar) -> (r: NarrowScalar)
        requires
            self.is_canonical(),
            other.is_canonical(),
        ensures
            r.is_canonical(),
            r@ == (self@ + other@) % group_order(),
    {
        let a = self.pairs();
        let b = other.pairs();
        let l = order_pairs();
        let (s0, c0) = add_pair(a.0, b.0, 0);
        let (s1, c1) = add_pair(a.1, b.1, c0);
        let (s2, c2) = add_pair(a.2, b.2, c1);
        let (s3, c3) = add_pair(a.3, b.3, c2);
        proof {
            lemma_pair_range(s0);
            lemma_pair_range(s1);
            lemma_pair_range(s2);
            lemma_pair_range(s3);
        }
        assert(c3 == 0);
        let (d0, e0) = sub_pair(s0, l.0, 0);
        let (d1, e1) = sub_pair(s1, l.1, e0);
        let (d2, e2) = sub_pair(s2, l.2, e1);
        let (d3, e3) = sub_pair(s3, l.3, e2);
        let r = NarrowScalar::from_pairs(
            (
                select_pair(e3, s0, d0),
                select_pair(e3, s1, d1),
                select_pair(e3, s2, d2),
                select_pair(e3, s3, d3),
            ),
        );
        proof {
            lemma_pair_range(d0);
            lemma_pair_range(d1);
            lemma_pair_range(d2);
            lemma_pair_range(d3);
            let sum = self@ + other@;
            assert(pairs_value(pair_value(s0), pair_value(s1), pair_value(s2), pair_value(s3))
                == sum);
            if e3 == 1 {
                assert(r@ == sum);
                lemma_small_mod(sum as nat, group_order() as nat);
            } else {
                assert(r@ == sum - group_order());
                lemma_fundamental_div_mod_converse(sum, group_order(), 1, r@);
            }
        }
        r
    }

    /// Multiplies a canonical scalar by `2^64` and adds one pair, modulo the
    /// group order.
    fn absorb_pair(&self, low: Pair) -> (r: NarrowScalar)
        requires
            self.is_canonical(),
        ensures
            r.is_canonical(),
            r@ == (self@ * limb_base() + pair_value(low)) % group_order(),
    {
        let mut acc = *self;
        let ghost mut weight: int = 1;
        proof {
            lemma2_to64();
            self.lemma_range();
            lemma_small_mod(self@ as nat, group_order() as nat);
            assert(self@ * 1 == self@);
        }
        for n in 0..64
            invariant
                acc.is_canonical(),
                weight == pow2(n as nat),
                acc@ == (self@ * weight) % group_order(),
        {
            proof {
                lemma_mod_double(self@ * weight, group_order());
                assert(self@ * (2 * weight) == 2 * (self@ * weight)) by (nonlinear_arith);
                lemma_pow2_unfold((n + 1) as nat);
                weight = 2 * weight;
            }
            acc = acc.add_mod(&acc);
        }
        let zero: Pair = (0, 0);
        let tail = NarrowScalar::from_pairs((low, zero, zero, zero));
        proof {
            lemma_pair_range(low);
            assert(pair_value(zero) == 0) by {
                reveal(pair_value);
            }
        }
        let r = acc.add_mod(&tail);
        proof {
            lemma2_to64();
            assert(weight == limb_base());
            lemma_mod_add_left(self@ * limb_base(), pair_value(low), group_order());
        }
        r
    }

    /// Two scalars that hold the same integer are the same scalar.
    pub proof fn lemma_same_value(&self, other: &NarrowScalar)
        requires
            self@ == other@,
        ensures
            *self == *other,
    {
        let w = limb_base();
        let a0 = pair_value((self.n0, self.n1));
        let a1 = pair_value((self.n2, self.n3));
        let a2 = pair_value((self.n4, self.n5));
        let a3 = pair_value((self.n6, self.n7));
        let b0 = pair_value((other.n0, other.n1));
        let b1 = pair_value((other.n2, other.n3));
        let b2 = pair_value((other.n4, other.n5));
        let b3 = pair_value((other.n6, other.n7));
        lemma_pair_range((self.n0, self.n1));
        lemma_pair_range((self.n2, self.n3));
        lemma_pair_range((self.n4, self.n5));
        lemma_pair_range((other.n0, other.n1));
        lemma_pair_range((other.n2, other.n3));
        lemma_pair_range((other.n4, other.n5));
        lemma_split_unique(w, a0, a1 + w * (a2 + w * a3), b0, b1 + w * (b2 + w * b3));
        lemma_split_unique(w, a1, a2 + w * a3, b1, b2 + w * b3);
        lemma_split_unique(w, a2, a3, b2, b3);
        reveal(pair_value);
        let n = narrow_base();
        lemma_split_unique(n, self.n0 as int, self.n1 as int, other.n0 as int, other.n1 as int);
        lemma_split_unique(n, self.n2 as int, self.n3 as int, other.n2 as int, other.n3 as int);
        lemma_split_unique(n, self.n4 as int, self.n5 as int, other.n4 as int, other.n5 as int);
        lemma_split_unique(n, self.n6 as int, self.n7 as int, other.n6 as int, other.n7 as int);
    }

    /// Every scalar lies in `[0, 2^256)`.
    pub proof fn lemma_range(&self)
        ensures
            0 <= self@ < limb_base() * (limb_base() * (limb_base() * limb_base())),
    {
        lemma_pair_range((self.n0, self.n1));
        lemma_pair_range((self.n2, self.n3));
        lemma_pair_range((self.n4, self.n5));
        lemma_pair_range((self.n6, self.n7));
    }

    /// Reduces a number of up to 512 bits, given as sixteen narrow limbs,
    /// modulo the group order.
    pub fn reduce_wide(w: &[u32; 16]) -> (r: NarrowScalar)
        ensures
            r.is_canonical(),
            r@ == narrow_wide_value(*w) % group_order(),
    {
        let ghost m = group_order();
        let ghost b = limb_base();
        let a7 = NarrowScalar::zero().absorb_pair((w[14], w[15]));
        let ghost t7: int = pair_value((w[14], w[15]));
        let a6 = a7.absorb_pair((w[12], w[13]));
        let ghost t6: int = t7 * b + pair_value((w[12], w[13]));
        let a5 = a6.absorb_pair((w[10], w[11]));
        let ghost t5: int = t6 * b + pair_value((w[10], w[11]));
        let a4 = a5.absorb_pair((w[8], w[9]));
        let ghost t4: int = t5 * b + pair_value((w[8], w[9]));
        let a3 = a4.absorb_pair((w[6], w[7]));
        let ghost t3: int = t4 * b + pair_value((w[6], w[7]));
        let a2 = a3.absorb_pair((w[4], w[5]));
        let ghost t2: int = t3 * b + pair_value((w[4], w[5]));
        let a1 = a2.absorb_pair((w[2], w[3]));
        let ghost t1: int = t2 * b + pair_value((w[2], w[3]));
        let a0 = a1.absorb_pair((w[0], w[1]));
        let ghost t0: int = t1 * b + pair_value((w[0], w[1]));
        proof {
            assert(a7@ == t7 % m);
            lemma_mod_absorb(t7, b, pair_value((w[12], w[13])), m);
            lemma_mod_absorb(t6, b, pair_value((w[10], w[11])), m);
            lemma_mod_absorb(t5, b, pair_value((w[8], w[9])), m);
            lemma_mod_absorb(t4, b, pair_value((w[6], w[7])), m);
            lemma_mod_absorb(t3, b, pair_value((w[4], w[5])), m);
            lemma_mod_absorb(t2, b, pair_value((w[2], w[3])), m);
            lemma_mod_absorb(t1, b, pair_value((w[0], w[1])), m);
            assert(t0 == narrow_wide_value(*w));
        }
        a0
    }

    /// Reduces the scalar modulo the group order.
    pub fn reduce(&self) -> (r: NarrowScalar)
        ensures
            r.is_canonical(),
            r@ == self@ % group_order(),
    {
        let w: [u32; 16] = [
            self.n0, self.n1, self.n2, self.n3, self.n4, self.n5, self.n6, self.n7,
            0, 0, 0, 0, 0, 0, 0, 0,
        ];
        proof {
            assert(pair_value((0u32, 0u32)) == 0) by {
                reveal(pair_value);
            }
        }
        NarrowScalar::reduce_wide(&w)
    }

    /// The unreduced `a * b + c` as sixteen narrow limbs: a schoolbook
    /// product, row by row, with `c` added in at the low end.
    pub fn mul_add_wide(a: &NarrowScalar, b: &NarrowScalar, c: &NarrowScalar) -> (w: [u32; 16])
        ensures
            narrow_wide_value(w) == a@ * b@ + c@,
    {
        let ap = a.pairs();
        let bp = b.pairs();
        let (w0, t0) = mul_row_narrow(ap.0, bp, c.pairs());
        let (w1, t1) = mul_row_narrow(ap.1, bp, t0);
        let (w2, t2) = mul_row_narrow(ap.2, bp, t1);
        let (w3, t3) = mul_row_narrow(ap.3, bp, t2);
        let w: [u32; 16] = [
            w0.0, w0.1, w1.0, w1.1, w2.0, w2.1, w3.0, w3.1,
            t3.0.0, t3.0.1, t3.1.0, t3.1.1, t3.2.0, t3.2.1, t3.3.0, t3.3.1,
        ];
        proof {
            let base = limb_base();
            let x0 = pair_value(ap.0) * b@;
            let x1 = pair_value(ap.1) * b@;
            let x2 = pair_value(ap.2) * b@;
            let x3 = pair_value(ap.3) * b@;
            assert(narrow_wide_value(w) == c@ + x0 + base * (x1 + base * (x2 + base * x3)));
            assert(a@ * b@ == x0 + base * (x1 + base * (x2 + base * x3))) by (nonlinear_arith)
                requires
                    a@ == pair_value(ap.0) + base * (pair_value(ap.1) + base * (pair_value(ap.2)
                        + base * pair_value(ap.3))),
                    x0 == pair_value(ap.0) * b@,
                    x1 == pair_value(ap.1) * b@,
                    x2 == pair_value(ap.2) * b@,
                    x3 == pair_value(ap.3) * b@,
            ;
        }
        w
    }
}

/// Computes `a * b + c` modulo the group order in the narrow layout. The
/// operands need not be canonical; the result is.
pub fn muladd(a: &NarrowScalar, b: &NarrowScalar, c: &NarrowScalar) -> (r: NarrowScalar)
    ensures
        r.is_canonical(),
        r@ == muladd_value(a@, b@, c@),
{
    let w = NarrowScalar::mul_add_wide(a, b, c);
    NarrowScalar::reduce_wide(&w)
}

} // verus!
