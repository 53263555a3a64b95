//! The sliding-window signed-digit form of a scalar: 256 digits, each zero
//! or odd and of magnitude at most 15, with every nonzero digit followed by
//! at least four zeros.

use vstd::prelude::*;
use vstd::arithmetic::power2::{lemma2_to64, lemma_pow2_adds, lemma_pow2_unfold, pow2};
use crate::digits::{
    binary_from,
    digits_from,
    digits_value,
    lemma_carry,
    lemma_carry_out,
    lemma_prefix_shift,
    lemma_same_prefix,
    lemma_same_suffix,
    lemma_window,
};
use crate::scalar::Scalar;

verus! {

/// The digits of the form: zero, or odd and between -15 and 15.
pub open spec fn is_naf_digit(x: i8) -> bool {
    -15 <= x <= 15 && (x == 0 || (x as int) % 2 == 1)
}

/// Every nonzero digit below index `upto` is followed by `gap - 1` zeros:
/// it and any later nonzero digit are at least `gap` positions apart.
pub open spec fn apart_below(d: Seq<i8>, upto: int, gap: int) -> bool {
    forall|j: int, k: int|
        0 <= j < upto && j < k < d.len() && #[trigger] d[j] != 0 && #[trigger] d[k] != 0 ==> k - j
            >= gap
}

/// Any two nonzero digits are at least `gap` positions apart.
pub open spec fn apart(d: Seq<i8>, gap: int) -> bool {
    apart_below(d, d.len() as int, gap)
}

/// A binary digit moved up by `b` places: `d * 2^b`.
fn shift_digit(d: i8, b: usize) -> (s: i8)
    requires
        0 <= d <= 1,
        b <= 6,
    ensures
        s == d * pow2(b as nat),
{
    let mut s: i8 = d;
    proof {
        lemma2_to64();
    }
    for n in 0..b
        invariant
            b <= 6,
            0 <= d <= 1,
            s == d * pow2(n as nat),
            pow2(n as nat) <= pow2(b as nat) <= 64,
    {
        proof {
            lemma_pow2_unfold((n + 1) as nat);
            assert(d * (2 * pow2(n as nat)) == 2 * (d * pow2(n as nat))) by (nonlinear_arith);
            assert(d * pow2(n as nat) <= pow2(n as nat)) by (nonlinear_arith)
                requires
                    0 <= d <= 1,
            ;
            assert(n + 1 <= b);
            assert(pow2((n + 1) as nat) <= pow2(b as nat)) by {
                lemma2_to64();
            }
        }
        s = s + s;
    }
    s
}

/// Adds one at index `from` of a row that is binary from there on: the ones
/// met on the way up become zeros, and the first zero becomes a one. Returns
/// the index of that zero, or 256 where there was none and the carry left
/// the row.
fn carry_into(row: &mut [i8; 256], from: usize) -> (k: usize)
    requires
        from < 256,
        binary_from(old(row)@, from as int),
    ensures
        from <= k <= 256,
        binary_from(final(row)@, from as int),
        forall|j: int| 0 <= j < from ==> final(row)[j] == old(row)[j],
        forall|j: int| from <= j < k ==> old(row)[j] == 1 && final(row)[j] == 0,
        k < 256 ==> old(row)[k as int] == 0 && final(row)[k as int] == 1,
        forall|j: int| k < j < 256 ==> final(row)[j] == old(row)[j],
        k < 256 ==> digits_from(final(row)@, from as int) == digits_from(old(row)@, from as int)
            + 1,
        k == 256 ==> digits_from(final(row)@, from as int) == digits_from(old(row)@, from as int)
            + 1 - pow2((256 - from) as nat),
{
    let mut k: usize = from;
    while k < 256 && row[k] != 0
        invariant
            from <= k <= 256,
            binary_from(old(row)@, from as int),
            forall|j: int| 0 <= j < from ==> row[j] == old(row)[j],
            forall|j: int| from <= j < k ==> old(row)[j] == 1 && row[j] == 0,
            forall|j: int| k <= j < 256 ==> row[j] == old(row)[j],
        decreases 256 - k,
    {
        row[k] = 0;
        k += 1;
    }
    if k < 256 {
        row[k] = 1;
        proof {
            lemma_carry(old(row)@, row@, from as int, k as int);
        }
    } else {
        proof {
            lemma_carry_out(old(row)@, row@, from as int);
        }
    }
    k
}

impl Scalar {
    /// The signed sliding-window digits of the scalar. Each digit is zero or
    /// odd with magnitude at most 15, and any two nonzero digits are at
    /// least five positions apart. For a scalar below `2^255` the digits
    /// write the scalar: the sum of `r[i] * 2^i` is its value. For a larger
    /// one a carry may leave the row at the top, and the digits then write
    /// the scalar less `2^256`.
    pub fn slide(&self) -> (r: [i8; 256])
        ensures
            forall|i: int| 0 <= i < 256 ==> is_naf_digit(#[trigger] r[i]),
            apart(r@, 5),
            digits_value(r@) == self@ || digits_value(r@) == self@ - pow2(256),
            self@ < pow2(255) ==> digits_value(r@) == self@,
    {
        let mut r = self.bits();
        let ghost top: bool = self@ >= pow2(255);
        let ghost mut lost: bool = false;
        let mut i: usize = 0;
        while i < 256
            invariant
                i <= 256,
                forall|j: int| 0 <= j < i ==> is_naf_digit(#[trigger] r[j]),
                binary_from(r@, i as int),
                apart_below(r@, i as int, 5),
                lost ==> top,
                lost ==> forall|j: int| i <= j < 256 ==> r[j] == 0,
                digits_value(r@) == self@ - (if lost {
                    pow2(256) as int
                } else {
                    0
                }),
                !top && r[255] != 0 ==> forall|j: int| i <= j < 255 ==> r[j] == 0,
            decreases 256 - i,
        {
            if r[i] != 0 {
                let limit: usize = if 256 - i < 7 {
                    256 - i
                } else {
                    7
                };
                let mut b: usize = 1;
                while b < limit
                    invariant
                        i < 256,
                        limit <= 7,
                        limit <= 256 - i,
                        limit == 7 || limit == 256 - i,
                        1 <= b <= limit,
                        forall|j: int| 0 <= j < i ==> is_naf_digit(#[trigger] r[j]),
                        binary_from(r@, i + 1),
                        apart_below(r@, i as int, 5),
                        lost ==> top,
                        lost ==> forall|j: int| i < j < 256 ==> r[j] == 0,
                        digits_value(r@) == self@ - (if lost {
                            pow2(256) as int
                        } else {
                            0
                        }),
                        !top && r[255] != 0 && i < 255 ==> b >= 5 && forall|j: int|
                            i < j < 255 ==> r[j] == 0,
                        is_naf_digit(r[i as int]),
                        r[i as int] != 0,
                        b == 1 ==> r[i as int] == 1,
                        b == 2 ==> 1 <= r[i as int] <= 3,
                        b == 3 ==> 1 <= r[i as int] <= 7,
                        b == 4 ==> 1 <= r[i as int] <= 15,
                        forall|j: int| i < j < i + b && j <= i + 4 ==> r[j] == 0,
                    ensures
                        forall|j: int| i < j <= i + 4 && j < 256 ==> r[j] == 0,
                    decreases limit - b,
                {
                    if r[i + b] != 0 {
                        proof {
                            lemma2_to64();
                        }
                        let ghost before = r@;
                        let shifted: i8 = shift_digit(r[i + b], b);
                        proof {
                            assert(r[i + b] == 1);
                            assert(b == 1 ==> shifted == 2);
                            assert(b == 2 ==> shifted == 4);
                            assert(b == 3 ==> shifted == 8);
                            assert(b == 4 ==> shifted == 16);
                            assert(b == 5 ==> shifted == 32);
                            assert(b == 6 ==> shifted == 64);
                        }
                        if r[i] + shifted <= 15 {
                            r[i] = r[i] + shifted;
                            r[i + b] = 0;
                            proof {
                                assert(b <= 3);
                                lemma_same_suffix(before, r@, i + 4);
                                lemma_window(before, i as int);
                                lemma_window(r@, i as int);
                                lemma_same_prefix(before, r@, i as int, 0);
                            }
                        } else if r[i] - shifted >= -15 {
                            r[i] = r[i] - shifted;
                            let ghost middle = r@;
                            let k = carry_into(&mut r, i + b);
                            proof {
                                assert(b == 4);
                                assert(before[255] != 0 ==> top);
                                assert(k == 256 ==> middle[255] == 1);
                                assert(middle[255] == before[255]);
                                lemma_same_suffix(before, middle, i + 4);
                                lemma_window(before, i as int);
                                lemma_window(r@, i as int);
                                if k < 256 {
                                    lemma_same_prefix(before, r@, i as int, 0);
                                } else {
                                    lemma_prefix_shift(before, r@, i as int, 0);
                                    lemma_pow2_adds(4, (252 - i) as nat);
                                    lemma_pow2_adds(i as nat, (256 - i) as nat);
                                    let high = pow2((252 - i) as nat);
                                    assert(digits_from(r@, i as int) - digits_from(
                                        before,
                                        i as int,
                                    ) == -16 * high);
                                    assert(pow2(i as nat) * (-(16 * high)) == -(pow2(i as nat) * (16
                                        * high))) by (nonlinear_arith);
                                    lost = true;
                                }
                            }
                        } else {
                            assert(b >= 5);
                            break ;
                        }
                    }
                    b += 1;
                }
            }
            i += 1;
        }
        r
    }
}

} // verus!
