//! Rows of 256 signed digits in base two: the number that such a row
//! writes, and how that number follows local changes of the row.

use vstd::prelude::*;
use vstd::arithmetic::power2::{lemma2_to64, lemma_pow2_unfold, pow2};
use crate::limbs::limb_base;

verus! {

/// The number written by the digits from index `i` upwards, the digit at
/// `i` having weight one: the sum of `d[j] * 2^(j - i)` over `j >= i`.
pub open spec fn digits_from(d: Seq<i8>, i: int) -> int
    decreases d.len() - i,
{
    if 0 <= i < d.len() {
        d[i] + 2 * digits_from(d, i + 1)
    } else {
        0
    }
}

/// The number written by all the digits: the sum of `d[i] * 2^i`.
pub open spec fn digits_value(d: Seq<i8>) -> int {
    digits_from(d, 0)
}

/// Every digit from index `from` upwards is 0 or 1.
pub open spec fn binary_from(d: Seq<i8>, from: int) -> bool {
    forall|j: int| from <= j < d.len() ==> d[j] == 0 || d[j] == 1
}

/// The digit at `j`, or zero beyond the end of the row.
pub open spec fn digit_or_zero(d: Seq<i8>, j: int) -> int {
    if 0 <= j < d.len() {
        d[j] as int
    } else {
        0
    }
}

/// Rows that agree from `i` upwards write the same number from `i`.
pub proof fn lemma_same_suffix(a: Seq<i8>, b: Seq<i8>, i: int)
    requires
        a.len() == b.len(),
        0 <= i,
        forall|j: int| i <= j < a.len() ==> a[j] == b[j],
    ensures
        digits_from(a, i) == digits_from(b, i),
    decreases a.len() - i,
{
    if i < a.len() {
        lemma_same_suffix(a, b, i + 1);
    }
}

/// Rows that agree below `i` and write the same number from `i` write the
/// same number from any `m <= i`.
pub proof fn lemma_same_prefix(a: Seq<i8>, b: Seq<i8>, i: int, m: int)
    requires
        a.len() == b.len(),
        0 <= m <= i <= a.len(),
        forall|j: int| 0 <= j < i ==> a[j] == b[j],
        digits_from(a, i) == digits_from(b, i),
    ensures
        digits_from(a, m) == digits_from(b, m),
    decreases i - m,
{
    if m < i {
        lemma_same_prefix(a, b, i, m + 1);
    }
}

/// The number written from `i` in terms of the four digits at `i` and the
/// number written from `i + 4`.
pub proof fn lemma_window(d: Seq<i8>, i: int)
    requires
        0 <= i,
    ensures
        digits_from(d, i) == digit_or_zero(d, i) + 2 * digit_or_zero(d, i + 1) + 4 * digit_or_zero(
            d,
            i + 2,
        ) + 8 * digit_or_zero(d, i + 3) + 16 * digits_from(d, i + 4),
{
    reveal_with_fuel(digits_from, 5);
}

/// A carry into a run of ones: the ones from `m` up to `k` become zeros and
/// the zero at `k` becomes a one, which adds one to the number written
/// from `m`.
pub proof fn lemma_carry(a: Seq<i8>, b: Seq<i8>, m: int, k: int)
    requires
        a.len() == b.len(),
        0 <= m <= k < a.len(),
        forall|j: int| m <= j < k ==> a[j] == 1 && b[j] == 0,
        a[k] == 0,
        b[k] == 1,
        forall|j: int| k < j < a.len() ==> a[j] == b[j],
    ensures
        digits_from(b, m) == digits_from(a, m) + 1,
    decreases k - m,
{
    if m < k {
        lemma_carry(a, b, m + 1, k);
    } else {
        lemma_same_suffix(a, b, k + 1);
    }
}

/// A carry into a run of ones that reaches the end of the row: the ones
/// become zeros and the carry is gone, so the number written from `m` falls
/// from `2^(len - m) - 1` to zero.
pub proof fn lemma_carry_out(a: Seq<i8>, b: Seq<i8>, m: int)
    requires
        a.len() == b.len(),
        0 <= m <= a.len(),
        forall|j: int| m <= j < a.len() ==> a[j] == 1 && b[j] == 0,
    ensures
        digits_from(a, m) == pow2((a.len() - m) as nat) - 1,
        digits_from(b, m) == 0,
    decreases a.len() - m,
{
    if m < a.len() {
        lemma_carry_out(a, b, m + 1);
        lemma_pow2_unfold((a.len() - m) as nat);
    } else {
        lemma2_to64();
    }
}

/// Rows that agree below `i`: the numbers they write from `m <= i` differ
/// by `2^(i - m)` times the difference of the numbers they write from `i`.
pub proof fn lemma_prefix_shift(a: Seq<i8>, b: Seq<i8>, i: int, m: int)
    requires
        a.len() == b.len(),
        0 <= m <= i <= a.len(),
        forall|j: int| 0 <= j < i ==> a[j] == b[j],
    ensures
        digits_from(b, m) - digits_from(a, m) == pow2((i - m) as nat) * (digits_from(b, i)
            - digits_from(a, i)),
    decreases i - m,
{
    let d = digits_from(b, i) - digits_from(a, i);
    if m < i {
        lemma_prefix_shift(a, b, i, m + 1);
        lemma_pow2_unfold((i - m) as nat);
        assert((2 * pow2((i - m - 1) as nat)) * d == 2 * (pow2((i - m - 1) as nat) * d))
            by (nonlinear_arith);
    } else {
        lemma2_to64();
        assert(1 * d == d);
    }
}

/// Writes the 64 bits of `x` into the row at indices `at .. at + 64`, least
/// significant first.
pub fn with_word(row: [i8; 256], at: usize, x: u64) -> (out: [i8; 256])
    requires
        at + 64 <= 256,
        binary_from(row@, at + 64),
    ensures
        binary_from(out@, at as int),
        forall|j: int| 0 <= j < at || at + 64 <= j < 256 ==> out[j] == row[j],
        digits_from(out@, at as int) == x + limb_base() * digits_from(row@, at + 64),
        out[at + 63] == x / 0x8000_0000_0000_0000,
{
    let mut out = row;
    let mut cur: u64 = x;
    let ghost tail = digits_from(row@, at + 64);
    let ghost mut weight: int = 1;
    let ghost mut high: int = 0;
    proof {
        lemma2_to64();
    }
    for n in 0..64
        invariant
            at + 64 <= 256,
            weight == pow2(n as nat),
            x * weight == high * limb_base() + cur,
            digits_from(out@, at + 64 - n) == high + weight * tail,
            binary_from(out@, at + 64 - n),
            forall|j: int| 0 <= j < at || at + 64 <= j < 256 ==> out[j] == row[j],
            n == 0 ==> cur == x,
            n > 0 ==> out[at + 63] == x / 0x8000_0000_0000_0000,
    {
        let bit: u64 = cur / 0x8000_0000_0000_0000;
        let ghost before = out@;
        out[at + 63 - n] = bit as i8;
        cur = (cur % 0x8000_0000_0000_0000) * 2;
        proof {
            lemma_same_suffix(before, out@, at + 64 - n);
            assert(x * (2 * weight) == 2 * (x * weight)) by (nonlinear_arith);
            assert((2 * weight) * tail == 2 * (weight * tail)) by (nonlinear_arith);
            lemma_pow2_unfold((n + 1) as nat);
            high = 2 * high + bit;
            weight = 2 * weight;
        }
    }
    proof {
        assert(weight == limb_base());
        assert(x * limb_base() == high * limb_base() + cur);
        assert(cur == 0 && high == x);
    }
    out
}

} // verus!
