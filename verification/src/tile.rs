//! Tiles are stored as exponents: `0` is an empty cell, `e > 0` is the tile `2^e`.
//!
//! Exponents and values live in `i32`. Nothing here overflows: an exponent that
//! cannot grow stays at `i32::MAX`, and a value that does not fit is reported as
//! `i32::MAX` (saturation).

use vstd::arithmetic::power2::{lemma2_to64, lemma_pow2_strictly_increases, lemma_pow2_unfold, pow2};
use vstd::prelude::*;

verus! {

/// Exponent of the tile whose first appearance wins the game: `2^11 = 2048`.
pub const WIN_EXPONENT: i32 = 11;

/// Largest exponent whose power of two fits an `i32`.
pub const MAX_EXACT_EXPONENT: i32 = 30;

/// `2^e` as a mathematical integer.
pub open spec fn face(e: i32) -> int {
    pow2(e as nat) as int
}

/// `v`, or `i32::MAX` where `v` is larger.
pub open spec fn capped(v: int) -> int {
    if v > i32::MAX {
        i32::MAX as int
    } else {
        v
    }
}

/// The exponent of the tile that two tiles of exponent `e` merge into.
pub open spec fn raised(e: i32) -> i32 {
    if e < i32::MAX {
        (e + 1) as i32
    } else {
        e
    }
}

/// What a cell shows: `0` for an empty cell, else `2^e` capped at `i32::MAX`.
pub open spec fn shown(e: i32) -> int {
    if e == 0 {
        0
    } else {
        capped(face(e))
    }
}

/// Powers of two up to `2^30` fit an `i32`; from `2^31` on they do not.
pub proof fn lemma_face_bounds(e: i32)
    requires
        e >= 0,
    ensures
        face(e) >= 1,
        e <= MAX_EXACT_EXPONENT ==> face(e) <= 0x4000_0000,
        e > MAX_EXACT_EXPONENT ==> face(e) > i32::MAX,
{
    lemma2_to64();
    if e < 30 {
        lemma_pow2_strictly_increases(e as nat, 30);
    }
    if e > 31 {
        lemma_pow2_strictly_increases(31, e as nat);
    }
    if e > 0 {
        lemma_pow2_strictly_increases(0, e as nat);
    }
}

/// `2^e`, capped at `i32::MAX`.
pub fn pow2_capped(e: i32) -> (v: i32)
    requires
        e >= 0,
    ensures
        v == capped(face(e)),
{
    proof {
        lemma_face_bounds(e);
    }
    if e > MAX_EXACT_EXPONENT {
        return i32::MAX;
    }
    let mut v: i32 = 1;
    let mut i: i32 = 0;
    proof {
        lemma2_to64();
    }
    while i < e
        invariant
            0 <= i <= e <= MAX_EXACT_EXPONENT,
            v == face(i),
            face(e) <= 0x4000_0000,
        decreases e - i,
    {
        proof {
            lemma_pow2_unfold((i + 1) as nat);
            if i + 1 < e {
                lemma_pow2_strictly_increases((i + 1) as nat, e as nat);
            }
        }
        v = v * 2;
        i = i + 1;
    }
    v
}

/// The exponent that two tiles of exponent `e` merge into.
pub fn raise(e: i32) -> (r: i32)
    ensures
        r == raised(e),
{
    if e < i32::MAX {
        e + 1
    } else {
        e
    }
}

/// `a + b`, capped at `i32::MAX`, for two amounts that are not negative.
pub fn add_capped(a: i32, b: i32) -> (r: i32)
    requires
        a >= 0,
        b >= 0,
    ensures
        r == capped(a + b),
{
    if a > i32::MAX - b {
        i32::MAX
    } else {
        a + b
    }
}

} // verus!
