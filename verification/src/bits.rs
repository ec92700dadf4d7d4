//! Single-bit operations on 64-bit words.
//!
//! Both allocators keep their state in word-packed bitmaps: one bit per
//! physical frame, one bit per 64-byte block of a virtual page. Everything
//! they do reduces to testing, setting and clearing single bits, so those
//! three operations are verified here once, against the spec-level reading
//! `bit64`.

use vstd::prelude::*;

verus! {

/// `i == (i/64)*64 + i%64` with the remainder in range: how a flat bit index
/// splits into a word index and a bit offset.
pub proof fn lemma_bit_index_split(i: int)
    requires
        0 <= i,
    ensures
        i == (i / 64) * 64 + i % 64,
        0 <= i % 64 < 64,
        0 <= i / 64,
{
    vstd::arithmetic::div_mod::lemma_fundamental_div_mod(i, 64);
}

/// Two multiples of `stride` less than one `stride` apart are equal.
pub proof fn lemma_unique_multiple(a: int, b: int, stride: int)
    requires
        stride >= 1,
        a % stride == 0,
        b % stride == 0,
        a <= b < a + stride,
    ensures
        a == b,
{
    vstd::arithmetic::div_mod::lemma_fundamental_div_mod(a, stride);
    vstd::arithmetic::div_mod::lemma_fundamental_div_mod(b, stride);
    let qa = a / stride;
    let qb = b / stride;
    assert(a == stride * qa);
    assert(b == stride * qb);
    if qa < qb {
        assert(stride * qa + stride <= stride * qb) by (nonlinear_arith)
            requires
                qa + 1 <= qb,
                stride >= 1,
        ;
    }
    if qb < qa {
        assert(stride * qb + stride <= stride * qa) by (nonlinear_arith)
            requires
                qb + 1 <= qa,
                stride >= 1,
        ;
    }
}

/// Stepping a multiple of `stride` by `stride` lands on a multiple again.
pub proof fn lemma_step_multiple(s: int, stride: int)
    requires
        stride >= 1,
        0 <= s,
        s % stride == 0,
    ensures
        (s + stride) % stride == 0,
{
    vstd::arithmetic::div_mod::lemma_fundamental_div_mod(s, stride);
    assert((s / stride + 1) * stride == stride * (s / stride) + stride) by (nonlinear_arith);
    vstd::arithmetic::div_mod::lemma_fundamental_div_mod_converse_mod(
        s + stride,
        stride,
        s / stride + 1,
        0,
    );
}

/// Whether bit `i` of `w` is set.
pub open spec fn bit64(w: u64, i: int) -> bool {
    0 <= i < 64 && (w >> (i as u64)) & 1u64 == 1u64
}

proof fn lemma_bit_test(w: u64, i: u64)
    requires
        i < 64,
    ensures
        (w & (1u64 << i) != 0) == ((w >> i) & 1u64 == 1u64),
{
    assert((w & (1u64 << i) != 0) == ((w >> i) & 1u64 == 1u64)) by (bit_vector)
        requires
            i < 64,
    ;
}

proof fn lemma_bit_or(w: u64, i: u64, j: u64)
    requires
        i < 64,
        j < 64,
    ensures
        (((w | (1u64 << i)) >> j) & 1u64 == 1u64) == (((w >> j) & 1u64 == 1u64) || j == i),
{
    assert((((w | (1u64 << i)) >> j) & 1u64 == 1u64) == (((w >> j) & 1u64 == 1u64) || j == i))
        by (bit_vector)
        requires
            i < 64,
            j < 64,
    ;
}

proof fn lemma_bit_clear(w: u64, i: u64, j: u64)
    requires
        i < 64,
        j < 64,
    ensures
        (((w & !(1u64 << i)) >> j) & 1u64 == 1u64) == (((w >> j) & 1u64 == 1u64) && j != i),
{
    assert((((w & !(1u64 << i)) >> j) & 1u64 == 1u64) == (((w >> j) & 1u64 == 1u64) && j != i))
        by (bit_vector)
        requires
            i < 64,
            j < 64,
    ;
}

/// Every bit of an all-ones word is set.
pub proof fn lemma_bit_full(j: int)
    requires
        0 <= j < 64,
    ensures
        bit64(u64::MAX, j),
{
    let ju = j as u64;
    assert((0xffff_ffff_ffff_ffffu64 >> ju) & 1u64 == 1u64) by (bit_vector)
        requires
            ju < 64,
    ;
}

/// No bit of a zero word is set.
pub proof fn lemma_bit_zero(j: int)
    requires
        0 <= j < 64,
    ensures
        !bit64(0u64, j),
{
    let ju = j as u64;
    assert((0u64 >> ju) & 1u64 == 0u64) by (bit_vector)
        requires
            ju < 64,
    ;
}

/// A word keeps being nonzero when bits are or-ed in.
pub proof fn lemma_or_keeps_nonzero(w: u64, m: u64)
    requires
        w != 0,
    ensures
        w | m != 0,
{
    assert(w != 0 ==> (w | m) != 0) by (bit_vector);
}

/// Test bit `i` of `w`.
pub fn bit_test(w: u64, i: u64) -> (r: bool)
    requires
        i < 64,
    ensures
        r == bit64(w, i as int),
{
    proof {
        lemma_bit_test(w, i);
    }
    w & (1u64 << i) != 0
}

/// Set bit `i` of `w`; every other bit keeps its value.
pub fn bit_set(w: u64, i: u64) -> (r: u64)
    requires
        i < 64,
    ensures
        r == w | (1u64 << i),
        forall|j: int| 0 <= j < 64 ==> bit64(r, j) == (bit64(w, j) || j == i as int),
{
    let r = w | (1u64 << i);
    proof {
        assert forall|j: int| 0 <= j < 64 implies bit64(r, j) == (bit64(w, j) || j == i as int) by {
            lemma_bit_or(w, i, j as u64);
        }
    }
    r
}

/// Clear bit `i` of `w`; every other bit keeps its value.
pub fn bit_clear(w: u64, i: u64) -> (r: u64)
    requires
        i < 64,
    ensures
        forall|j: int| 0 <= j < 64 ==> bit64(r, j) == (bit64(w, j) && j != i as int),
{
    let r = w & !(1u64 << i);
    proof {
        assert forall|j: int| 0 <= j < 64 implies bit64(r, j) == (bit64(w, j) && j != i as int) by {
            lemma_bit_clear(w, i, j as u64);
        }
    }
    r
}

} // verus!
