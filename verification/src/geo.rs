//! Fixed-point spherical geometry.
//!
//! Angles are measured in millidegrees, lengths in metres.  The sine and
//! cosine used for the Earth-centred Cartesian conversion are the rational
//! approximation `sin x ~= 4x(180 - x) / (40500 - x(180 - x))` (x in
//! degrees), carried out over millidegrees and scaled by `SIN_SCALE`, so
//! that every quantity in the engine is an exact integer.

use vstd::prelude::*;

verus! {

/// Scale factor of the trigonometric fixed-point values: `SIN_SCALE`
/// stands for 1.0.
pub const SIN_SCALE: i64 = 1_000_000;

/// Mean Earth radius in metres.
pub const EARTH_RADIUS_M: i64 = 6_371_000;

/// Largest altitude the engine accepts, in metres.
pub const MAX_ALTITUDE_M: u64 = 100_000_000;

/// Bound on the magnitude of an Earth-centred Cartesian coordinate:
/// `EARTH_RADIUS_M + MAX_ALTITUDE_M`.
pub const MAX_COORD_M: i64 = 106_371_000;

/// Every distance between two accepted positions is below this, in metres.
pub const MAX_DISTANCE_M: u64 = 400_000_000;

/// Fixed-point sine on `[0, 180000]` millidegrees, scaled by `SIN_SCALE`.
pub open spec fn spec_sin_half(u: int) -> int
    recommends
        0 <= u <= 180_000,
{
    let p = u * (180_000 - u);
    4 * p * 1_000_000 / (40_500_000_000 - p)
}

/// Fixed-point sine on `[-180000, 180000]` millidegrees.
pub open spec fn spec_sin(a: int) -> int
    recommends
        -180_000 <= a <= 180_000,
{
    if a < 0 {
        -spec_sin_half(-a)
    } else {
        spec_sin_half(a)
    }
}

/// Fixed-point cosine on `[-180000, 180000]` millidegrees.
pub open spec fn spec_cos(a: int) -> int
    recommends
        -180_000 <= a <= 180_000,
{
    if a >= 0 {
        spec_sin(90_000 - a)
    } else {
        spec_sin(90_000 + a)
    }
}

/// Multiplies a non-negative length by a fixed-point factor in
/// `[-SIN_SCALE, SIN_SCALE]`, rounding the magnitude down.
pub open spec fn spec_scale(a: int, s: int) -> int
    recommends
        a >= 0,
{
    if s >= 0 {
        a * s / 1_000_000
    } else {
        -(a * -s / 1_000_000)
    }
}

proof fn lemma_sin_half_bounds(u: int)
    requires
        0 <= u <= 180_000,
    ensures
        0 <= spec_sin_half(u) <= 1_000_000,
{
    assert(0 <= u * (180_000 - u) <= 8_100_000_000) by (nonlinear_arith)
        requires
            0 <= u <= 180_000,
    {
        assert((u - 90_000) * (u - 90_000) >= 0);
    }
    let p = u * (180_000 - u);
    let numer = 4 * p * 1_000_000;
    let denom = 40_500_000_000 - p;
    assert(denom >= 32_400_000_000);
    assert(4 * p * 1_000_000 <= 1_000_000 * (40_500_000_000 - p)) by (nonlinear_arith)
        requires
            0 <= p <= 8_100_000_000,
    ;
    assert(numer / denom <= 1_000_000) by (nonlinear_arith)
        requires
            numer <= 1_000_000 * denom,
            denom > 0,
            numer >= 0,
    ;
    assert(numer / denom >= 0) by {
        vstd::arithmetic::div_mod::lemma_div_pos_is_pos(numer, denom);
    }
}

/// The fixed-point sine never leaves `[-SIN_SCALE, SIN_SCALE]`.
pub proof fn lemma_sin_bounds(a: int)
    requires
        -180_000 <= a <= 180_000,
    ensures
        -1_000_000 <= spec_sin(a) <= 1_000_000,
{
    if a < 0 {
        lemma_sin_half_bounds(-a);
    } else {
        lemma_sin_half_bounds(a);
    }
}

/// The fixed-point cosine never leaves `[-SIN_SCALE, SIN_SCALE]`, and is
/// non-negative between -90 and 90 degrees.
pub proof fn lemma_cos_bounds(a: int)
    requires
        -180_000 <= a <= 180_000,
    ensures
        -1_000_000 <= spec_cos(a) <= 1_000_000,
        -90_000 <= a <= 90_000 ==> spec_cos(a) >= 0,
{
    if a >= 0 {
        lemma_sin_bounds(90_000 - a);
        if a <= 90_000 {
            lemma_sin_half_bounds(90_000 - a);
        }
    } else {
        lemma_sin_bounds(90_000 + a);
        if a >= -90_000 {
            lemma_sin_half_bounds(90_000 + a);
        }
    }
}

fn sin_half(u: i64) -> (r: i64)
    requires
        0 <= u <= 180_000,
    ensures
        r == spec_sin_half(u as int),
        0 <= r <= 1_000_000,
{
    proof {
        assert(0 <= u * (180_000 - u) <= 8_100_000_000) by (nonlinear_arith)
            requires
                0 <= u <= 180_000,
        {
            assert((u - 90_000) * (u - 90_000) >= 0);
        }
        lemma_sin_half_bounds(u as int);
    }
    let p: i64 = u * (180_000 - u);
    let numer: i64 = 4 * p * 1_000_000;
    let denom: i64 = 40_500_000_000 - p;
    numer / denom
}

/// Fixed-point sine of an angle in millidegrees.
pub fn sin_fp(a: i64) -> (r: i64)
    requires
        -180_000 <= a <= 180_000,
    ensures
        r == spec_sin(a as int),
        -1_000_000 <= r <= 1_000_000,
{
    if a < 0 {
        let s = sin_half(-a);
        -s
    } else {
        sin_half(a)
    }
}

/// Fixed-point cosine of an angle in millidegrees.
pub fn cos_fp(a: i64) -> (r: i64)
    requires
        -180_000 <= a <= 180_000,
    ensures
        r == spec_cos(a as int),
        -1_000_000 <= r <= 1_000_000,
{
    if a >= 0 {
        sin_fp(90_000 - a)
    } else {
        sin_fp(90_000 + a)
    }
}

fn scale_fp(a: i64, s: i64) -> (r: i64)
    requires
        0 <= a <= 200_000_000,
        -1_000_000 <= s <= 1_000_000,
    ensures
        r == spec_scale(a as int, s as int),
        -a <= r <= a,
{
    proof {
        assert(a * 1_000_000 <= 200_000_000 * 1_000_000) by (nonlinear_arith)
            requires
                0 <= a <= 200_000_000,
        ;
        if s >= 0 {
            assert(0 <= a * s <= a * 1_000_000) by (nonlinear_arith)
                requires
                    0 <= a,
                    0 <= s <= 1_000_000,
            ;
            assert(a * s / 1_000_000 <= a) by (nonlinear_arith)
                requires
                    0 <= a,
                    0 <= s <= 1_000_000,
            ;
            vstd::arithmetic::div_mod::lemma_div_pos_is_pos(a as int * s as int, 1_000_000);
        } else {
            assert(0 <= a * -s <= a * 1_000_000) by (nonlinear_arith)
                requires
                    0 <= a,
                    0 < -s <= 1_000_000,
            ;
            assert(a * -s / 1_000_000 <= a) by (nonlinear_arith)
                requires
                    0 <= a,
                    0 < -s <= 1_000_000,
            ;
            vstd::arithmetic::div_mod::lemma_div_pos_is_pos(a as int * -s as int, 1_000_000);
        }
    }
    if s >= 0 {
        a * s / 1_000_000
    } else {
        -(a * -s / 1_000_000)
    }
}

/// Earth-centred Cartesian x coordinate of a geographic position, in
/// metres: `(R + alt) * cos(lat) * cos(lon)`.
pub open spec fn spec_ecef_x(lat: int, lon: int, alt: int) -> int {
    spec_scale((6_371_000 + alt) * spec_cos(lat) / 1_000_000, spec_cos(lon))
}

/// Earth-centred Cartesian y coordinate: `(R + alt) * cos(lat) * sin(lon)`.
pub open spec fn spec_ecef_y(lat: int, lon: int, alt: int) -> int {
    spec_scale((6_371_000 + alt) * spec_cos(lat) / 1_000_000, spec_sin(lon))
}

/// Earth-centred Cartesian z coordinate: `(R + alt) * sin(lat)`.
pub open spec fn spec_ecef_z(lat: int, lon: int, alt: int) -> int {
    spec_scale(6_371_000 + alt, spec_sin(lat))
}

/// Converts geographic coordinates (millidegrees, metres) to
/// Earth-centred Cartesian coordinates in metres.
pub fn ecef(lat: i64, lon: i64, alt: i64) -> (c: (i64, i64, i64))
    requires
        -90_000 <= lat <= 90_000,
        -180_000 <= lon <= 180_000,
        0 <= alt <= MAX_ALTITUDE_M,
    ensures
        c.0 == spec_ecef_x(lat as int, lon as int, alt as int),
        c.1 == spec_ecef_y(lat as int, lon as int, alt as int),
        c.2 == spec_ecef_z(lat as int, lon as int, alt as int),
        -MAX_COORD_M <= c.0 <= MAX_COORD_M,
        -MAX_COORD_M <= c.1 <= MAX_COORD_M,
        -MAX_COORD_M <= c.2 <= MAX_COORD_M,
{
    let r: i64 = 6_371_000 + alt;
    let cl = cos_fp(lat);
    proof {
        lemma_cos_bounds(lat as int);
        assert(0 <= r * cl <= r * 1_000_000) by (nonlinear_arith)
            requires
                0 < r <= 106_371_000,
                0 <= cl <= 1_000_000,
        ;
        assert(r * cl / 1_000_000 <= r) by (nonlinear_arith)
            requires
                0 < r,
                0 <= cl <= 1_000_000,
        ;
        vstd::arithmetic::div_mod::lemma_div_pos_is_pos(r as int * cl as int, 1_000_000);
    }
    let t: i64 = r * cl / 1_000_000;
    let x = scale_fp(t, cos_fp(lon));
    let y = scale_fp(t, sin_fp(lon));
    let z = scale_fp(r, sin_fp(lat));
    (x, y, z)
}

/// Squared Euclidean distance between two Cartesian points.
pub open spec fn spec_sq_dist(
    x1: int,
    y1: int,
    z1: int,
    x2: int,
    y2: int,
    z2: int,
) -> int {
    (x1 - x2) * (x1 - x2) + (y1 - y2) * (y1 - y2) + (z1 - z2) * (z1 - z2)
}

/// Integer square root, defined by counting up; `lemma_sqrt_floor_bounds`
/// shows it is the floor of the real square root.
pub open spec fn sqrt_floor(x: nat) -> nat
    decreases x,
{
    if x == 0 {
        0
    } else {
        let r = sqrt_floor((x - 1) as nat);
        if (r + 1) * (r + 1) <= x {
            r + 1
        } else {
            r
        }
    }
}

/// `sqrt_floor(x)` is the unique `r` with `r * r <= x < (r + 1) * (r + 1)`.
pub proof fn lemma_sqrt_floor_bounds(x: nat)
    ensures
        sqrt_floor(x) * sqrt_floor(x) <= x,
        x < (sqrt_floor(x) + 1) * (sqrt_floor(x) + 1),
    decreases x,
{
    if x == 0 {
        assert(sqrt_floor(0) == 0);
        assert(x < (sqrt_floor(x) + 1) * (sqrt_floor(x) + 1)) by (nonlinear_arith)
            requires
                x == 0,
                sqrt_floor(x) == 0,
        ;
    } else {
        lemma_sqrt_floor_bounds((x - 1) as nat);
        let r = sqrt_floor((x - 1) as nat);
        assert(r * r <= x - 1);
        assert(x - 1 < (r + 1) * (r + 1));
        if (r + 1) * (r + 1) <= x {
            assert(sqrt_floor(x) == r + 1);
            assert(x <= (r + 1) * (r + 1));
            assert(x < (r + 2) * (r + 2)) by (nonlinear_arith)
                requires
                    x <= (r + 1) * (r + 1),
                    r >= 0,
            ;
            assert(sqrt_floor(x) * sqrt_floor(x) <= x);
            assert(x < (sqrt_floor(x) + 1) * (sqrt_floor(x) + 1));
        } else {
            assert(sqrt_floor(x) == r);
            assert(sqrt_floor(x) * sqrt_floor(x) <= x);
            assert(x < (sqrt_floor(x) + 1) * (sqrt_floor(x) + 1));
        }
    }
}

/// Any bracketed integer root equals `sqrt_floor`.
pub proof fn lemma_sqrt_floor_unique(x: nat, r: nat)
    requires
        r * r <= x,
        x < (r + 1) * (r + 1),
    ensures
        r == sqrt_floor(x),
{
    lemma_sqrt_floor_bounds(x);
    let s = sqrt_floor(x);
    if r < s {
        assert((r + 1) * (r + 1) <= s * s) by (nonlinear_arith)
            requires
                r + 1 <= s,
                r >= 0,
        ;
    }
    if s < r {
        assert((s + 1) * (s + 1) <= r * r) by (nonlinear_arith)
            requires
                s + 1 <= r,
                s >= 0,
        ;
    }
}

/// Integer square root of a 64-bit value, by bisection.
pub fn isqrt(x: u64) -> (r: u64)
    ensures
        r == sqrt_floor(x as nat),
        r * r <= x,
{
    let mut lo: u64 = 0;
    let mut hi: u64 = 4_294_967_296;
    proof {
        assert((4_294_967_296int) * (4_294_967_296int) > u64::MAX);
    }
    while lo + 1 < hi
        invariant
            0 <= lo < hi <= 4_294_967_296,
            lo * lo <= x,
            (x as int) < (hi as int) * (hi as int),
        decreases hi - lo,
    {
        let mid: u64 = lo + (hi - lo) / 2;
        proof {
            assert(lo < mid < hi);
            assert((mid as int) * (mid as int) < (4_294_967_296int) * (4_294_967_296int))
                by (nonlinear_arith)
                requires
                    0 <= mid < 4_294_967_296int,
            ;
        }
        if mid * mid <= x {
            lo = mid;
        } else {
            hi = mid;
        }
    }
    proof {
        lemma_sqrt_floor_unique(x as nat, lo as nat);
    }
    lo
}

} // verus!
