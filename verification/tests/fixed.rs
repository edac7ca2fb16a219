use boids::fixed::blend;
use boids::fixed::distance_squared;
use boids::fixed::div_toward_zero;
use boids::fixed::is_within;
use boids::fixed::is_within_half;
use boids::fixed::isqrt;
use boids::fixed::normalize;
use boids::fixed::normalize_wide;
use boids::fixed::steer;
use boids::fixed::Vec2;
use boids::fixed::UNIT;

fn norm2(v: Vec2) -> i128 {
    (v.x as i128) * (v.x as i128) + (v.y as i128) * (v.y as i128)
}

#[test]
fn isqrt_of_squares_and_neighbours() {
    assert_eq!(isqrt(0), 0);
    assert_eq!(isqrt(1), 1);
    assert_eq!(isqrt(3), 1);
    assert_eq!(isqrt(4), 2);
    assert_eq!(isqrt(99), 9);
    assert_eq!(isqrt(100), 10);
    assert_eq!(isqrt(u128::MAX), u64::MAX);
}

#[test]
fn division_rounds_as_named() {
    assert_eq!(div_toward_zero(7, 2), 3);
    assert_eq!(div_toward_zero(-7, 2), -3);
    assert_eq!(div_toward_zero(-6, 2), -3);
    assert_eq!(div_toward_zero(0, 5), 0);
    assert_eq!(div_toward_zero(i128::MAX, 1), i128::MAX);
}

#[test]
fn squared_distance_is_exact() {
    let a = Vec2::new(0, 0);
    let b = Vec2::new(3000, 4000);
    assert_eq!(distance_squared(a, b), 25_000_000);
    let far = distance_squared(Vec2::new(i32::MIN, i32::MIN), Vec2::new(i32::MAX, i32::MAX));
    assert_eq!(far, 2 * (u32::MAX as u128) * (u32::MAX as u128));
}

#[test]
fn within_includes_the_rim() {
    let a = Vec2::new(0, 0);
    let b = Vec2::new(3000, 4000);
    assert!(is_within(a, b, 5000));
    assert!(!is_within(a, b, 4999));
    assert!(!is_within(a, a, -1));
    assert!(is_within(a, a, 0));
    assert!(is_within_half(a, b, 10_000));
    assert!(!is_within_half(a, b, 9_999));
}

#[test]
fn normalize_gives_exact_components() {
    assert_eq!(normalize(3, 4), Some(Vec2::new(600_000, 800_000)));
    assert_eq!(normalize(1, 1), Some(Vec2::new(707_106, 707_106)));
    assert_eq!(normalize(-1, 1), Some(Vec2::new(-707_106, 707_106)));
    assert_eq!(normalize(0, -5), Some(Vec2::new(0, -1_000_000)));
    assert_eq!(normalize(-7, 24), Some(Vec2::new(-280_000, 960_000)));
    assert_eq!(normalize(123_456, -654_321), Some(Vec2::new(185_406, -982_661)));
    assert_eq!(normalize(1000, 1), Some(Vec2::new(999_999, 999)));
    assert_eq!(normalize(1 << 40, 1 << 40), Some(Vec2::new(707_106, 707_106)));
}

#[test]
fn normalize_of_zero_is_none() {
    assert_eq!(normalize(0, 0), None);
}

#[test]
fn normalize_is_symmetric_under_negation() {
    let v = normalize(123_456, -654_321).unwrap();
    let w = normalize(-123_456, 654_321).unwrap();
    assert_eq!(Vec2::new(-v.x, -v.y), w);
}

#[test]
fn normalize_keeps_unit_length_over_the_whole_range() {
    let low = (UNIT as i128 - 3) * (UNIT as i128 - 3);
    let high = (UNIT as i128 + 1) * (UNIT as i128 + 1);
    let samples: [i64; 9] = [1, -1, 2, 1000, -70_000, 1 << 31, -(1 << 40), i64::MAX, i64::MIN];
    for &x in samples.iter() {
        for &y in samples.iter() {
            let v = normalize(x, y).unwrap();
            assert!(low <= norm2(v) && norm2(v) <= high);
        }
        let v = normalize(x, 0).unwrap();
        assert!(low <= norm2(v) && norm2(v) <= high);
    }
}

#[test]
fn blend_rounds_toward_zero() {
    assert_eq!(blend(0, 1_000_000, 500_000_000), 500_000);
    assert_eq!(blend(1_000_000, 0, 48_000_000), 952_000);
    assert_eq!(blend(0, 1, 999_999_999), 0);
    assert_eq!(blend(0, -1, 999_999_999), 0);
    assert_eq!(blend(0, 1_000_000, 2_000_000_000), 2_000_000);
    assert_eq!(blend(10, 20, 0), 10);
}

#[test]
fn steer_blends_and_renormalizes() {
    let east = Vec2::new(UNIT, 0);
    let north = Vec2::new(0, UNIT);
    assert_eq!(steer(east, north, 48_000_000), Vec2::new(998_731, 50_356));
    assert_eq!(steer(east, north, 1_000_000_000), north);
    assert_eq!(steer(Vec2::new(600_000, 800_000), north, 250_000_000), Vec2::new(467_887, 883_787));
}

#[test]
fn steer_keeps_heading_where_the_blend_vanishes() {
    let east = Vec2::new(UNIT, 0);
    let west = Vec2::new(-UNIT, 0);
    assert_eq!(steer(east, west, 500_000_000), east);
}

#[test]
fn unit_length_is_told_apart() {
    assert!(Vec2::new(UNIT, 0).has_unit_length());
    assert!(Vec2::new(707_106, -707_106).has_unit_length());
    assert!(Vec2::new(-600_000, 800_000).has_unit_length());
    assert!(Vec2::new(999_997, 0).has_unit_length());
    assert!(!Vec2::new(999_996, 0).has_unit_length());
    assert!(!Vec2::new(UNIT, 2_000).has_unit_length());
    assert!(!Vec2::new(UNIT + 1, 0).has_unit_length());
    assert!(!Vec2::new(0, 0).has_unit_length());
    assert!(!Vec2::new(i32::MIN, i32::MAX).has_unit_length());
}

#[test]
fn long_vectors_are_shortened_before_they_are_normalized() {
    assert_eq!(normalize_wide(3, 4), Some(Vec2::new(600_000, 800_000)));
    assert_eq!(normalize_wide(0, 0), None);
    assert_eq!(normalize_wide(1 << 70, -(1 << 69)), Some(Vec2::new(894_427, -447_213)));
    assert_eq!(normalize_wide(3 << 80, 4 << 80), Some(Vec2::new(600_000, 800_000)));
    assert_eq!(normalize_wide(1 << 63, 0), Some(Vec2::new(1_000_000, 0)));
    assert_eq!(normalize_wide(-(1 << 63), 1), Some(Vec2::new(-1_000_000, 0)));
    assert_eq!(normalize_wide((1 << 63) - 1, 0), Some(Vec2::new(1_000_000, 0)));
    assert_eq!(normalize_wide(1 << 96, 1 << 96), Some(Vec2::new(707_106, 707_106)));
}
