//! The integer decisions inside the noise library: how many octaves a
//! fractal sum evaluates, and which of the 16 gradient directions a lattice
//! hash selects.

use vstd::prelude::*;

verus! {

/// Most octaves a fractal sum evaluates.
pub const MAX_OCTAVES: i32 = 4;

/// The octave count of a fractal sum: the request clamped to `1..=MAX_OCTAVES`.
pub open spec fn octave_count(octaves: int) -> int {
    if octaves < 1 {
        1
    } else if octaves > MAX_OCTAVES {
        MAX_OCTAVES as int
    } else {
        octaves
    }
}

/// The number of octaves a fractal sum evaluates for a requested count; a
/// request of one or fewer gives exactly one evaluation.
pub fn fbm_octaves(octaves: i32) -> (r: i32)
    ensures
        r == octave_count(octaves as int),
        1 <= r <= MAX_OCTAVES,
        octaves <= 1 ==> r == 1,
{
    if octaves < 1 {
        1
    } else if octaves > MAX_OCTAVES {
        MAX_OCTAVES
    } else {
        octaves
    }
}

/// The gradient selected by the low four bits `h` of a lattice hash, as the
/// coefficients of x, y and z: `±u ± v` with u in {x, y} and v in {x, y, z}.
pub open spec fn gradient_of(h: int) -> (int, int, int) {
    let su: int = if h % 2 == 0 { 1 } else { -1 };
    let sv: int = if (h / 2) % 2 == 0 { 1 } else { -1 };
    let u: (int, int, int) = if h < 8 { (su, 0, 0) } else { (0, su, 0) };
    let v: (int, int, int) = if h < 4 {
        (0, sv, 0)
    } else if h == 12 || h == 14 {
        (sv, 0, 0)
    } else {
        (0, 0, sv)
    };
    (u.0 + v.0, u.1 + v.1, u.2 + v.2)
}

/// The gradient direction for a lattice hash, from its low four bits.
pub fn gradient_direction(hash: i32) -> (r: (i32, i32, i32))
    ensures
        r == ({
            let g = gradient_of((hash & 15) as int);
            (g.0 as i32, g.1 as i32, g.2 as i32)
        }),
        -2 <= r.0 <= 2,
        -2 <= r.1 <= 2,
        -2 <= r.2 <= 2,
{
    let h = hash & 15;
    assert(0 <= h < 16) by (bit_vector)
        requires
            h == hash & 15,
    ;
    let su: i32 = if h % 2 == 0 {
        1
    } else {
        -1
    };
    let sv: i32 = if (h / 2) % 2 == 0 {
        1
    } else {
        -1
    };
    let u: (i32, i32, i32) = if h < 8 {
        (su, 0, 0)
    } else {
        (0, su, 0)
    };
    let v: (i32, i32, i32) = if h < 4 {
        (0, sv, 0)
    } else if h == 12 || h == 14 {
        (sv, 0, 0)
    } else {
        (0, 0, sv)
    };
    (u.0 + v.0, u.1 + v.1, u.2 + v.2)
}

} // verus!
