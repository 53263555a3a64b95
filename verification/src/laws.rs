//! Laws of the scalar operations, stated over the spec functions that the
//! operations' contracts use.

use vstd::prelude::*;
use vstd::arithmetic::div_mod::{lemma_mod_bound, lemma_small_mod};
use crate::limbs::limb_base;
use crate::modular::lemma_split_unique;
use crate::narrow::{narrow_encodes, NarrowScalar};
use crate::scalar::{
    decode_canonical,
    encodes,
    group_order,
    le_value,
    le_word,
    muladd_result,
    muladd_value,
    CanonicalityError,
    Scalar,
};

verus! {

/// Reduction gives a canonical scalar that holds the value modulo the group
/// order.
pub proof fn lemma_reduced_value(x: Scalar)
    ensures
        x.reduced()@ == x@ % group_order(),
        x.reduced().is_canonical(),
{
    x.lemma_range();
    Scalar::lemma_order_range();
    lemma_mod_bound(x@, group_order());
    Scalar::lemma_from_value(x@ % group_order());
}

/// Decoding the 32 bytes that encode a canonical scalar succeeds and gives
/// that scalar back.
pub proof fn lemma_round_trip(s: Scalar, bytes: Seq<u8>)
    requires
        s.is_canonical(),
        encodes(bytes, s),
    ensures
        decode_canonical(bytes) == Ok::<Scalar, CanonicalityError>(s),
{
    s.lemma_from_view();
}

/// Decoding never reduces: bytes that encode a scalar which is not
/// canonical are refused.
pub proof fn lemma_decode_refuses(s: Scalar, bytes: Seq<u8>)
    requires
        !s.is_canonical(),
        encodes(bytes, s),
    ensures
        decode_canonical(bytes) == Err::<Scalar, CanonicalityError>(CanonicalityError),
{
}

/// Reducing a canonical scalar changes nothing.
pub proof fn lemma_reduce_canonical(s: Scalar)
    requires
        s.is_canonical(),
    ensures
        s.reduced() == s,
{
    s.lemma_range();
    lemma_small_mod(s@ as nat, group_order() as nat);
    s.lemma_from_view();
}

/// Reducing twice is reducing once.
pub proof fn lemma_reduce_idempotent(x: Scalar)
    ensures
        x.reduced().reduced() == x.reduced(),
{
    lemma_reduced_value(x);
    lemma_reduce_canonical(x.reduced());
}

/// The result of `muladd` is canonical and holds `a * b + c` modulo the
/// group order, whatever the operands.
pub proof fn lemma_muladd_value(a: Scalar, b: Scalar, c: Scalar)
    ensures
        muladd_result(a, b, c)@ == (a@ * b@ + c@) % group_order(),
        muladd_result(a, b, c).is_canonical(),
{
    Scalar::lemma_order_range();
    lemma_mod_bound(a@ * b@ + c@, group_order());
    Scalar::lemma_from_value(muladd_value(a@, b@, c@));
}

/// Zero times anything, plus `c`, is `c` reduced.
pub proof fn lemma_muladd_zero(b: Scalar, c: Scalar)
    ensures
        muladd_result(Scalar::from_value(0), b, c) == c.reduced(),
{
    Scalar::lemma_order_range();
    Scalar::lemma_from_value(0);
    assert(0 * b@ == 0) by (nonlinear_arith);
}

/// `a` times one, plus zero, is `a` reduced.
pub proof fn lemma_muladd_one(a: Scalar)
    ensures
        muladd_result(a, Scalar::from_value(1), Scalar::from_value(0)) == a.reduced(),
{
    Scalar::lemma_order_range();
    Scalar::lemma_from_value(0);
    Scalar::lemma_from_value(1);
    assert(a@ * 1 == a@) by (nonlinear_arith);
}

/// `muladd` does not depend on the order of its two factors.
pub proof fn lemma_muladd_commutes(a: Scalar, b: Scalar, c: Scalar)
    ensures
        muladd_result(a, b, c) == muladd_result(b, a, c),
{
    assert(a@ * b@ == b@ * a@) by (nonlinear_arith);
}

/// Eight bytes are fixed by the number they write.
proof fn lemma_word_unique(a: Seq<u8>, b: Seq<u8>, at: int)
    requires
        a.len() == 32,
        b.len() == 32,
        0 <= at <= 24,
        le_word(a, at) == le_word(b, at),
    ensures
        forall|k: int| at <= k < at + 8 ==> a[k] == b[k],
{
    let a6 = a[at + 6] + 256 * a[at + 7];
    let b6 = b[at + 6] + 256 * b[at + 7];
    let a5 = a[at + 5] + 256 * a6;
    let b5 = b[at + 5] + 256 * b6;
    let a4 = a[at + 4] + 256 * a5;
    let b4 = b[at + 4] + 256 * b5;
    let a3 = a[at + 3] + 256 * a4;
    let b3 = b[at + 3] + 256 * b4;
    let a2 = a[at + 2] + 256 * a3;
    let b2 = b[at + 2] + 256 * b3;
    let a1 = a[at + 1] + 256 * a2;
    let b1 = b[at + 1] + 256 * b2;
    lemma_split_unique(256, a[at] as int, a1, b[at] as int, b1);
    lemma_split_unique(256, a[at + 1] as int, a2, b[at + 1] as int, b2);
    lemma_split_unique(256, a[at + 2] as int, a3, b[at + 2] as int, b3);
    lemma_split_unique(256, a[at + 3] as int, a4, b[at + 3] as int, b4);
    lemma_split_unique(256, a[at + 4] as int, a5, b[at + 4] as int, b5);
    lemma_split_unique(256, a[at + 5] as int, a6, b[at + 5] as int, b6);
    lemma_split_unique(
        256,
        a[at + 6] as int,
        a[at + 7] as int,
        b[at + 6] as int,
        b[at + 7] as int,
    );
}

/// Two rows of 32 bytes that write the same number are the same bytes.
pub proof fn lemma_le_value_unique(first: Seq<u8>, second: Seq<u8>)
    requires
        first.len() == 32,
        second.len() == 32,
        le_value(first) == le_value(second),
    ensures
        first == second,
{
    let w = limb_base();
    let f2 = le_word(first, 16) + w * le_word(first, 24);
    let s2 = le_word(second, 16) + w * le_word(second, 24);
    let f1 = le_word(first, 8) + w * f2;
    let s1 = le_word(second, 8) + w * s2;
    lemma_split_unique(w, le_word(first, 0), f1, le_word(second, 0), s1);
    lemma_split_unique(w, le_word(first, 8), f2, le_word(second, 8), s2);
    lemma_split_unique(
        w,
        le_word(first, 16),
        le_word(first, 24),
        le_word(second, 16),
        le_word(second, 24),
    );
    lemma_word_unique(first, second, 0);
    lemma_word_unique(first, second, 8);
    lemma_word_unique(first, second, 16);
    lemma_word_unique(first, second, 24);
    assert(first =~= second);
}

/// The encoding of a scalar is unique.
pub proof fn lemma_encoding_unique(s: Scalar, first: Seq<u8>, second: Seq<u8>)
    requires
        encodes(first, s),
        encodes(second, s),
    ensures
        first == second,
{
    lemma_le_value_unique(first, second);
}

/// Scalars of the two layouts that hold the same integer have the same 32
/// bytes.
pub proof fn lemma_layouts_agree(
    wide: Scalar,
    narrow: NarrowScalar,
    wide_bytes: Seq<u8>,
    narrow_bytes: Seq<u8>,
)
    requires
        wide@ == narrow@,
        encodes(wide_bytes, wide),
        narrow_encodes(narrow_bytes, narrow),
    ensures
        wide_bytes == narrow_bytes,
{
    lemma_le_value_unique(wide_bytes, narrow_bytes);
}

/// `muladd` gives the same bytes in both layouts: on operands that hold the
/// same integers, the result `r` of the wide layout and a result `nr` as the
/// narrow layout promises it are encoded alike.
pub proof fn lemma_muladd_layouts_agree(
    a: Scalar,
    b: Scalar,
    c: Scalar,
    na: NarrowScalar,
    nb: NarrowScalar,
    nc: NarrowScalar,
    nr: NarrowScalar,
    bytes: Seq<u8>,
    narrow_bytes: Seq<u8>,
)
    requires
        na@ == a@,
        nb@ == b@,
        nc@ == c@,
        nr@ == muladd_value(na@, nb@, nc@),
        encodes(bytes, muladd_result(a, b, c)),
        narrow_encodes(narrow_bytes, nr),
    ensures
        bytes == narrow_bytes,
{
    lemma_muladd_value(a, b, c);
    lemma_le_value_unique(bytes, narrow_bytes);
}

/// Reduction gives the same bytes in both layouts.
pub proof fn lemma_reduce_layouts_agree(
    x: Scalar,
    nx: NarrowScalar,
    nr: NarrowScalar,
    bytes: Seq<u8>,
    narrow_bytes: Seq<u8>,
)
    requires
        nx@ == x@,
        nr@ == nx@ % group_order(),
        encodes(bytes, x.reduced()),
        narrow_encodes(narrow_bytes, nr),
    ensures
        bytes == narrow_bytes,
{
    lemma_reduced_value(x);
    lemma_le_value_unique(bytes, narrow_bytes);
}

} // verus!
