//! The scalar type: an integer below `2^256` held in four 64-bit limbs, its
//! 32-byte little-endian encoding, and arithmetic modulo the group order.

use vstd::prelude::*;
use vstd::arithmetic::power2::{lemma2_to64, lemma_pow2_adds, lemma_pow2_unfold, pow2};
use vstd::arithmetic::div_mod::{lemma_fundamental_div_mod_converse, lemma_small_mod};
use crate::modular::{lemma_mod_absorb, lemma_mod_add_left, lemma_mod_double};
use crate::digits::{binary_from, digits_from, digits_value, with_word};
use crate::limbs::{add_carry, limb_base, mul_row, select, sub_borrow, value4, value8};

verus! {

/// The order of the curve25519 base point,
/// `2^252 + 27742317777372353535851937790883648493`.
pub open spec fn group_order() -> int {
    value4(ORDER_0, ORDER_1, ORDER_2, ORDER_3)
}

pub const ORDER_0: u64 = 0x5812_631a_5cf5_d3ed;

pub const ORDER_1: u64 = 0x14de_f9de_a2f7_9cd6;

pub const ORDER_2: u64 = 0;

pub const ORDER_3: u64 = 0x1000_0000_0000_0000;

/// The number written by eight bytes of `s`, least significant first,
/// starting at index `at`.
pub open spec fn le_word(s: Seq<u8>, at: int) -> int {
    s[at] + 256 * (s[at + 1] + 256 * (s[at + 2] + 256 * (s[at + 3] + 256 * (s[at + 4] + 256 * (s[at
        + 5] + 256 * (s[at + 6] + 256 * s[at + 7]))))))
}

/// The number written by 32 bytes, least significant first.
pub open spec fn le_value(s: Seq<u8>) -> int {
    le_word(s, 0) + limb_base() * (le_word(s, 8) + limb_base() * (le_word(s, 16) + limb_base()
        * le_word(s, 24)))
}

/// Whether `bytes` are the 32 little-endian bytes of the scalar `s`.
pub open spec fn encodes(bytes: Seq<u8>, s: Scalar) -> bool {
    bytes.len() == 32 && le_value(bytes) == s@
}

/// What decoding 32 bytes as a canonical scalar gives: the scalar that they
/// write where that is below the group order, and an error where not.
pub open spec fn decode_canonical(bytes: Seq<u8>) -> Result<Scalar, CanonicalityError> {
    if le_value(bytes) < group_order() {
        Ok(Scalar::from_value(le_value(bytes)))
    } else {
        Err(CanonicalityError)
    }
}

/// An integer in `[0, 2^256)`. Arithmetic results are canonical, that is
/// below the group order; a scalar read from raw bytes need not be.
#[derive(Clone, Copy, Debug, PartialEq, Eq, Structural)]
pub struct Scalar {
    l0: u64,
    l1: u64,
    l2: u64,
    l3: u64,
}

/// The error of decoding 32 bytes that write a number not below the group
/// order.
#[derive(Clone, Copy, Debug, PartialEq, Eq, Structural)]
pub struct CanonicalityError;

impl View for Scalar {
    type V = int;

    /// The integer that the scalar holds.
    closed spec fn view(&self) -> int {
        value4(self.l0, self.l1, self.l2, self.l3)
    }
}

/// Reads eight bytes as one limb.
fn load_word(bytes: &[u8; 32], at: usize) -> (r: u64)
    requires
        at + 8 <= 32,
    ensures
        r == le_word(bytes@, at as int),
{
    let b0: u64 = bytes[at] as u64;
    let b1: u64 = bytes[at + 1] as u64;
    let b2: u64 = bytes[at + 2] as u64;
    let b3: u64 = bytes[at + 3] as u64;
    let b4: u64 = bytes[at + 4] as u64;
    let b5: u64 = bytes[at + 5] as u64;
    let b6: u64 = bytes[at + 6] as u64;
    let b7: u64 = bytes[at + 7] as u64;
    b0 + 256 * (b1 + 256 * (b2 + 256 * (b3 + 256 * (b4 + 256 * (b5 + 256 * (b6 + 256 * b7))))))
}

/// Writes one limb as eight bytes.
fn store_word(x: u64) -> (r: [u8; 8])
    ensures
        le_word(r@, 0) == x,
{
    let x1: u64 = x / 256;
    let x2: u64 = x1 / 256;
    let x3: u64 = x2 / 256;
    let x4: u64 = x3 / 256;
    let x5: u64 = x4 / 256;
    let x6: u64 = x5 / 256;
    let x7: u64 = x6 / 256;
    [
        (x % 256) as u8,
        (x1 % 256) as u8,
        (x2 % 256) as u8,
        (x3 % 256) as u8,
        (x4 % 256) as u8,
        (x5 % 256) as u8,
        (x6 % 256) as u8,
        x7 as u8,
    ]
}


/// `2^256` in terms of the limb weight.
pub proof fn lemma_pow2_256()
    ensures
        pow2(256) == limb_base() * (limb_base() * (limb_base() * limb_base())),
{
    lemma_pow2_255();
    lemma_pow2_unfold(256);
}

/// `2^255` in terms of the limb weight.
pub proof fn lemma_pow2_255()
    ensures
        pow2(255) == 0x8000_0000_0000_0000 * (limb_base() * (limb_base() * limb_base())),
{
    lemma2_to64();
    vstd::arithmetic::power2::lemma2_to64_rest();
    lemma_pow2_adds(64, 64);
    lemma_pow2_adds(128, 64);
    lemma_pow2_adds(192, 63);
    assert(pow2(255) == pow2(192) * pow2(63));
    assert(pow2(192) == limb_base() * limb_base() * limb_base());
    assert(pow2(192) * pow2(63) == 0x8000_0000_0000_0000 * (limb_base() * (limb_base()
        * limb_base()))) by (nonlinear_arith)
        requires
            pow2(192) == limb_base() * limb_base() * limb_base(),
            pow2(63) == 0x8000_0000_0000_0000,
    ;
}

impl Scalar {
    /// Whether the scalar is below the group order.
    pub open spec fn is_canonical(&self) -> bool {
        self@ < group_order()
    }

    /// The scalar that holds `v`, for `v` in `[0, 2^256)`.
    pub closed spec fn from_value(v: int) -> Scalar {
        let q1 = v / limb_base();
        let q2 = q1 / limb_base();
        let q3 = q2 / limb_base();
        Scalar {
            l0: (v % limb_base()) as u64,
            l1: (q1 % limb_base()) as u64,
            l2: (q2 % limb_base()) as u64,
            l3: (q3 % limb_base()) as u64,
        }
    }

    /// The scalar reduced modulo the group order.
    pub open spec fn reduced(&self) -> Scalar {
        Scalar::from_value(self@ % group_order())
    }

    /// Every scalar lies in `[0, 2^256)`.
    pub proof fn lemma_range(&self)
        ensures
            0 <= self@ < pow2(256),
    {
        lemma_pow2_256();
    }

    /// Two scalars that hold the same integer are the same scalar.
    pub proof fn lemma_same_value(&self, other: &Scalar)
        requires
            self@ == other@,
        ensures
            *self == *other,
    {
    }

    /// `from_value` builds the scalar that holds the given integer.
    pub proof fn lemma_from_value(v: int)
        requires
            0 <= v < pow2(256),
        ensures
            Scalar::from_value(v)@ == v,
    {
        lemma_pow2_256();
    }

    /// A scalar is the one that `from_value` builds from its integer.
    pub proof fn lemma_from_view(&self)
        ensures
            Scalar::from_value(self@) == *self,
    {
        self.lemma_range();
        Scalar::lemma_from_value(self@);
        Scalar::from_value(self@).lemma_same_value(self);
    }

    /// The group order is below `2^256`, and so is every canonical value.
    pub proof fn lemma_order_range()
        ensures
            0 < group_order() < pow2(256),
            group_order() == pow2(252) + 27742317777372353535851937790883648493,
    {
        lemma_pow2_256();
        lemma_pow2_255();
        lemma_pow2_adds(252, 3);
        lemma2_to64();
    }

    /// The scalar zero.
    pub fn zero() -> (r: Scalar)
        ensures
            r@ == 0,
            r == Scalar::from_value(0),
    {
        let r = Scalar { l0: 0, l1: 0, l2: 0, l3: 0 };
        proof {
            r.lemma_from_view();
        }
        r
    }

    /// The scalar one.
    pub fn one() -> (r: Scalar)
        ensures
            r@ == 1,
            r == Scalar::from_value(1),
    {
        let r = Scalar { l0: 1, l1: 0, l2: 0, l3: 0 };
        proof {
            r.lemma_from_view();
        }
        r
    }

    /// Reads 32 little-endian bytes as a scalar, without reducing: any bit
    /// pattern is accepted and kept as it is.
    pub fn from_bytes(bytes: &[u8; 32]) -> (r: Scalar)
        ensures
            r@ == le_value(bytes@),
            r == Scalar::from_value(le_value(bytes@)),
    {
        let r = Scalar {
            l0: load_word(bytes, 0),
            l1: load_word(bytes, 8),
            l2: load_word(bytes, 16),
            l3: load_word(bytes, 24),
        };
        proof {
            r.lemma_from_view();
        }
        r
    }

    /// Tells, without branching on the limbs, whether the scalar is below
    /// the group order: 1 if it is, 0 if not.
    fn below_order(&self) -> (r: u64)
        ensures
            r == if self.is_canonical() { 1u64 } else { 0u64 },
    {
        let (_d0, c0) = sub_borrow(self.l0, ORDER_0, 0);
        let (_d1, c1) = sub_borrow(self.l1, ORDER_1, c0);
        let (_d2, c2) = sub_borrow(self.l2, ORDER_2, c1);
        let (_d3, c3) = sub_borrow(self.l3, ORDER_3, c2);
        c3
    }

    /// Reads 32 little-endian bytes as a canonical scalar. Bytes that write
    /// a number not below the group order are refused, never reduced.
    pub fn from_canonical_bytes(bytes: &[u8; 32]) -> (r: Result<Scalar, CanonicalityError>)
        ensures
            r == decode_canonical(bytes@),
            r.is_ok() <==> le_value(bytes@) < group_order(),
            r.is_ok() ==> r.unwrap()@ == le_value(bytes@),
    {
        let s = Scalar::from_bytes(bytes);
        if s.below_order() == 1 {
            Ok(s)
        } else {
            Err(CanonicalityError)
        }
    }

    /// Writes the scalar as 32 little-endian bytes.
    pub fn to_bytes(&self) -> (r: [u8; 32])
        ensures
            encodes(r@, *self),
            Scalar::from_value(le_value(r@)) == *self,
    {
        let a = store_word(self.l0);
        let b = store_word(self.l1);
        let c = store_word(self.l2);
        let d = store_word(self.l3);
        let r = [
            a[0], a[1], a[2], a[3], a[4], a[5], a[6], a[7],
            b[0], b[1], b[2], b[3], b[4], b[5], b[6], b[7],
            c[0], c[1], c[2], c[3], c[4], c[5], c[6], c[7],
            d[0], d[1], d[2], d[3], d[4], d[5], d[6], d[7],
        ];
        proof {
            assert(le_word(r@, 0) == le_word(a@, 0));
            assert(le_word(r@, 8) == le_word(b@, 0));
            assert(le_word(r@, 16) == le_word(c@, 0));
            assert(le_word(r@, 24) == le_word(d@, 0));
            self.lemma_from_view();
        }
        r
    }

    /// Adds two canonical scalars modulo the group order. The sum is
    /// corrected by a masked subtraction of the order, not by a branch.
    fn add_mod(&self, other: &Scalar) -> (r: Scalar)
        requires
            self.is_canonical(),
            other.is_canonical(),
        ensures
            r.is_canonical(),
            r@ == (self@ + other@) % group_order(),
    {
        let (s0, c0) = add_carry(self.l0, other.l0, 0);
        let (s1, c1) = add_carry(self.l1, other.l1, c0);
        let (s2, c2) = add_carry(self.l2, other.l2, c1);
        let (s3, c3) = add_carry(self.l3, other.l3, c2);
        assert(c3 == 0);
        let (d0, e0) = sub_borrow(s0, ORDER_0, 0);
        let (d1, e1) = sub_borrow(s1, ORDER_1, e0);
        let (d2, e2) = sub_borrow(s2, ORDER_2, e1);
        let (d3, e3) = sub_borrow(s3, ORDER_3, e2);
        let r = Scalar {
            l0: select(e3, s0, d0),
            l1: select(e3, s1, d1),
            l2: select(e3, s2, d2),
            l3: select(e3, s3, d3),
        };
        proof {
            let sum = self@ + other@;
            assert(value4(s0, s1, s2, s3) == sum);
            if e3 == 1 {
                assert(r@ == sum);
                lemma_small_mod(sum as nat, group_order() as nat);
            } else {
                assert(r@ == sum - group_order());
                lemma_fundamental_div_mod_converse(sum, group_order(), 1, r@);
            }
        }
        r
    }

    /// Multiplies a canonical scalar by `2^64` and adds one limb, modulo the
    /// group order: one step of reading a long number limb by limb from its
    /// most significant end.
    fn absorb_limb(&self, limb: u64) -> (r: Scalar)
        requires
            self.is_canonical(),
        ensures
            r.is_canonical(),
            r@ == (self@ * limb_base() + limb) % group_order(),
    {
        let mut acc = *self;
        let ghost mut weight: int = 1;
        proof {
            lemma2_to64();
            lemma_small_mod(self@ as nat, group_order() as nat);
            assert(self@ * 1 == self@);
        }
        for n in 0..64
            invariant
                acc.is_canonical(),
                weight == pow2(n as nat),
                acc@ == (self@ * weight) % group_order(),
        {
            proof {
                lemma_mod_double(self@ * weight, group_order());
                assert(self@ * (2 * weight) == 2 * (self@ * weight)) by (nonlinear_arith);
                lemma_pow2_unfold((n + 1) as nat);
                weight = 2 * weight;
            }
            acc = acc.add_mod(&acc);
        }
        let low = Scalar { l0: limb, l1: 0, l2: 0, l3: 0 };
        let r = acc.add_mod(&low);
        proof {
            lemma2_to64();
            assert(weight == limb_base());
            lemma_mod_add_left(self@ * limb_base(), limb as int, group_order());
        }
        r
    }

    /// Reduces a number of up to 512 bits, given as eight limbs, modulo the
    /// group order.
    pub fn reduce_wide(w: &[u64; 8]) -> (r: Scalar)
        ensures
            r.is_canonical(),
            r@ == value8(*w) % group_order(),
    {
        let ghost m = group_order();
        let ghost b = limb_base();
        let a7 = Scalar::zero().absorb_limb(w[7]);
        let ghost t7: int = w[7] as int;
        let a6 = a7.absorb_limb(w[6]);
        let ghost t6: int = t7 * b + w[6];
        let a5 = a6.absorb_limb(w[5]);
        let ghost t5: int = t6 * b + w[5];
        let a4 = a5.absorb_limb(w[4]);
        let ghost t4: int = t5 * b + w[4];
        let a3 = a4.absorb_limb(w[3]);
        let ghost t3: int = t4 * b + w[3];
        let a2 = a3.absorb_limb(w[2]);
        let ghost t2: int = t3 * b + w[2];
        let a1 = a2.absorb_limb(w[1]);
        let ghost t1: int = t2 * b + w[1];
        let a0 = a1.absorb_limb(w[0]);
        let ghost t0: int = t1 * b + w[0];
        proof {
            assert(a7@ == t7 % m);
            lemma_mod_absorb(t7, b, w[6] as int, m);
            lemma_mod_absorb(t6, b, w[5] as int, m);
            lemma_mod_absorb(t5, b, w[4] as int, m);
            lemma_mod_absorb(t4, b, w[3] as int, m);
            lemma_mod_absorb(t3, b, w[2] as int, m);
            lemma_mod_absorb(t2, b, w[1] as int, m);
            lemma_mod_absorb(t1, b, w[0] as int, m);
            assert(t0 == value8(*w));
        }
        a0
    }

    /// Reduces the scalar modulo the group order.
    pub fn reduce(&self) -> (r: Scalar)
        ensures
            r.is_canonical(),
            r@ == self@ % group_order(),
            r == self.reduced(),
    {
        let w: [u64; 8] = [self.l0, self.l1, self.l2, self.l3, 0, 0, 0, 0];
        let r = Scalar::reduce_wide(&w);
        proof {
            r.lemma_from_view();
        }
        r
    }

    /// Reads 32 little-endian bytes and reduces the number they write
    /// modulo the group order.
    pub fn from_bytes_mod(bytes: &[u8; 32]) -> (r: Scalar)
        ensures
            r.is_canonical(),
            r@ == le_value(bytes@) % group_order(),
            r == Scalar::from_value(le_value(bytes@)).reduced(),
    {
        Scalar::from_bytes(bytes).reduce()
    }

    /// The unreduced `a * b + c` as eight limbs: a schoolbook product of the
    /// limbs of `a` and `b`, row by row, with `c` added in at the low end.
    pub fn mul_add_wide(a: &Scalar, b: &Scalar, c: &Scalar) -> (w: [u64; 8])
        ensures
            value8(w) == a@ * b@ + c@,
    {
        let bl = (b.l0, b.l1, b.l2, b.l3);
        let (w0, t1, t2, t3, t4) = mul_row(a.l0, bl, (c.l0, c.l1, c.l2, c.l3));
        let (w1, u2, u3, u4, u5) = mul_row(a.l1, bl, (t1, t2, t3, t4));
        let (w2, v3, v4, v5, v6) = mul_row(a.l2, bl, (u2, u3, u4, u5));
        let (w3, w4, w5, w6, w7) = mul_row(a.l3, bl, (v3, v4, v5, v6));
        let w: [u64; 8] = [w0, w1, w2, w3, w4, w5, w6, w7];
        proof {
            let base = limb_base();
            let x0 = a.l0 * b@;
            let x1 = a.l1 * b@;
            let x2 = a.l2 * b@;
            let x3 = a.l3 * b@;
            assert(value8(w) == c@ + x0 + base * (x1 + base * (x2 + base * x3)));
            assert(a@ * b@ == x0 + base * (x1 + base * (x2 + base * x3))) by (nonlinear_arith)
                requires
                    a@ == a.l0 + base * (a.l1 + base * (a.l2 + base * a.l3)),
                    x0 == a.l0 * b@,
                    x1 == a.l1 * b@,
                    x2 == a.l2 * b@,
                    x3 == a.l3 * b@,
            ;
        }
        w
    }

    /// The scalar's 256 binary digits, least significant first.
    pub fn bits(&self) -> (r: [i8; 256])
        ensures
            binary_from(r@, 0),
            digits_value(r@) == self@,
            (r[255] == 1) == (self@ >= pow2(255)),
    {
        let r0: [i8; 256] = [0i8;256];
        let r1 = with_word(r0, 192, self.l3);
        let r2 = with_word(r1, 128, self.l2);
        let r3 = with_word(r2, 64, self.l1);
        let r4 = with_word(r3, 0, self.l0);
        proof {
            assert(digits_from(r0@, 256) == 0);
            lemma_pow2_255();
        }
        r4
    }
}

/// What `muladd` computes: `a * b + c` modulo the group order.
pub open spec fn muladd_value(a: int, b: int, c: int) -> int {
    (a * b + c) % group_order()
}

/// The scalar that `muladd` returns.
pub open spec fn muladd_result(a: Scalar, b: Scalar, c: Scalar) -> Scalar {
    Scalar::from_value(muladd_value(a@, b@, c@))
}

/// Computes `a * b + c` modulo the group order. The operands need not be
/// canonical; the result is.
pub fn muladd(a: &Scalar, b: &Scalar, c: &Scalar) -> (r: Scalar)
    ensures
        r.is_canonical(),
        r@ == muladd_value(a@, b@, c@),
        r == muladd_result(*a, *b, *c),
{
    let w = Scalar::mul_add_wide(a, b, c);
    let r = Scalar::reduce_wide(&w);
    proof {
        r.lemma_from_view();
    }
    r
}

} // verus!
