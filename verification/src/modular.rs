//! Facts about remainders that the reduction steps rest on.

use vstd::prelude::*;
use vstd::arithmetic::div_mod::{lemma_fundamental_div_mod, lemma_mod_multiples_vanish};

verus! {

/// Doubling commutes with reduction: `2 (x mod m) = 2x (mod m)`.
pub proof fn lemma_mod_double(x: int, m: int)
    requires
        m > 0,
    ensures
        ((x % m) + (x % m)) % m == (2 * x) % m,
{
    lemma_fundamental_div_mod(x, m);
    let q = x / m;
    assert(2 * x == m * (2 * q) + ((x % m) + (x % m))) by (nonlinear_arith)
        requires
            x == m * q + x % m,
    ;
    lemma_mod_multiples_vanish(2 * q, (x % m) + (x % m), m);
}

/// Adding commutes with reduction of the left term.
pub proof fn lemma_mod_add_left(x: int, y: int, m: int)
    requires
        m > 0,
    ensures
        ((x % m) + y) % m == (x + y) % m,
{
    lemma_fundamental_div_mod(x, m);
    let q = x / m;
    assert(x + y == m * q + ((x % m) + y));
    lemma_mod_multiples_vanish(q, (x % m) + y, m);
}

/// A reduced number may stand for the number itself in `t * base + w`.
pub proof fn lemma_mod_absorb(t: int, base: int, w: int, m: int)
    requires
        m > 0,
    ensures
        ((t % m) * base + w) % m == (t * base + w) % m,
{
    lemma_fundamental_div_mod(t, m);
    let q = t / m;
    assert(t * base + w == m * (q * base) + ((t % m) * base + w)) by (nonlinear_arith)
        requires
            t == m * q + t % m,
    ;
    lemma_mod_multiples_vanish(q * base, (t % m) * base + w, m);
}

/// A number has one digit of least weight in base `base` and one part above
/// it.
pub proof fn lemma_split_unique(base: int, x0: int, x1: int, y0: int, y1: int)
    requires
        base > 0,
        0 <= x0 < base,
        0 <= y0 < base,
        x0 + base * x1 == y0 + base * y1,
    ensures
        x0 == y0,
        x1 == y1,
{
    assert(base * (x1 - y1) == y0 - x0) by (nonlinear_arith)
        requires
            x0 + base * x1 == y0 + base * y1,
    ;
    assert(x1 == y1) by (nonlinear_arith)
        requires
            base > 0,
            -base < base * (x1 - y1) < base,
    ;
}

} // verus!
