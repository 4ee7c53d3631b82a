//! Tests of the fixed-point geometry: trigonometry, square roots, and
//! distances between geographic positions.

use rustsat::geo;
use rustsat::node::{distance_m, OrbitalPosition};

fn pos(lat_mdeg: i32, lon_mdeg: i32, alt_m: u32) -> OrbitalPosition {
    OrbitalPosition {
        lat_mdeg,
        lon_mdeg,
        alt_m,
        vel_x_mps: 0,
        vel_y_mps: 0,
        vel_z_mps: 0,
    }
}

#[test]
fn sine_hits_the_exact_anchor_points() {
    assert_eq!(geo::sin_fp(0), 0);
    assert_eq!(geo::sin_fp(30_000), 500_000);
    assert_eq!(geo::sin_fp(90_000), 1_000_000);
    assert_eq!(geo::sin_fp(180_000), 0);
    assert_eq!(geo::sin_fp(-30_000), -500_000);
    assert_eq!(geo::sin_fp(-90_000), -1_000_000);
}

#[test]
fn cosine_hits_the_exact_anchor_points() {
    assert_eq!(geo::cos_fp(0), 1_000_000);
    assert_eq!(geo::cos_fp(60_000), 500_000);
    assert_eq!(geo::cos_fp(90_000), 0);
    assert_eq!(geo::cos_fp(-60_000), 500_000);
}

#[test]
fn sine_stays_close_to_the_real_function() {
    // 45 degrees: the rational approximation gives 705882 against the
    // real 707107, within two thousandths of full scale.
    assert_eq!(geo::sin_fp(45_000), 705_882);
}

#[test]
fn integer_square_root_brackets_its_argument() {
    assert_eq!(geo::isqrt(0), 0);
    assert_eq!(geo::isqrt(1), 1);
    assert_eq!(geo::isqrt(15), 3);
    assert_eq!(geo::isqrt(16), 4);
    assert_eq!(geo::isqrt(u64::MAX), 4_294_967_295);
}

#[test]
fn distance_to_self_is_zero() {
    let p = pos(12_345, -67_890, 400_000);
    assert_eq!(distance_m(&p, &p), 0);
}

#[test]
fn distance_across_a_quarter_turn_is_exact() {
    // Sea level, a quarter turn apart along the equator: both Cartesian
    // conversions are exact there, so the distance is the Earth radius
    // times the square root of two, rounded down.
    let a = pos(0, 0, 0);
    let b = pos(0, 90_000, 0);
    assert_eq!(distance_m(&a, &b), 9_009_954);
}

#[test]
fn distance_is_symmetric() {
    let a = pos(10_000, 20_000, 400_000);
    let b = pos(-30_000, 120_000, 600_000);
    assert_eq!(distance_m(&a, &b), distance_m(&b, &a));
}

#[test]
fn one_degree_offset_at_orbit_height_is_reasonable() {
    let a = pos(0, 0, 400_000);
    let b = pos(1_000, 1_000, 400_000);
    let d = distance_m(&a, &b);
    assert!(d > 0);
    assert!(d < 200_000);
}
