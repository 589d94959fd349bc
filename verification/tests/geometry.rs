use moving_tower::arith::{isqrt, isqrt_ceil, magnitude, saturate, scale_toward_zero};
use moving_tower::geometry::Circle;

#[test]
fn isqrt_rounds_down() {
    assert_eq!(isqrt(0), 0);
    assert_eq!(isqrt(1), 1);
    assert_eq!(isqrt(2), 1);
    assert_eq!(isqrt(3), 1);
    assert_eq!(isqrt(4), 2);
    assert_eq!(isqrt(24), 4);
    assert_eq!(isqrt(25), 5);
    assert_eq!(isqrt(26), 5);
    assert_eq!(isqrt(250_000_000_000_000_000), 500_000_000);
    assert_eq!(isqrt(u128::MAX), u64::MAX);
}

#[test]
fn isqrt_ceil_rounds_up() {
    assert_eq!(isqrt_ceil(0), 0);
    assert_eq!(isqrt_ceil(1), 1);
    assert_eq!(isqrt_ceil(2), 2);
    assert_eq!(isqrt_ceil(4), 2);
    assert_eq!(isqrt_ceil(5), 3);
    assert_eq!(isqrt_ceil(5_000_000_000_000_000), 70_710_679);
    assert_eq!(isqrt_ceil(u128::MAX), 1u128 << 64);
}

#[test]
fn isqrt_brackets_its_argument() {
    let samples: [u128; 6] = [7, 99, 1_000_003, 1 << 64, (1 << 100) + 12345, u128::MAX - 1];
    for n in samples {
        let r = isqrt(n) as u128;
        assert!(r * r <= n);
        assert!(r == u64::MAX as u128 || (r + 1) * (r + 1) > n);
    }
}

#[test]
fn magnitude_drops_the_sign() {
    assert_eq!(magnitude(0), 0);
    assert_eq!(magnitude(17), 17);
    assert_eq!(magnitude(-17), 17);
    assert_eq!(magnitude(i64::MAX), 9_223_372_036_854_775_807);
    assert_eq!(magnitude(i64::MIN), 9_223_372_036_854_775_808);
}

#[test]
fn scaling_rounds_towards_zero() {
    assert_eq!(scale_toward_zero(7, 3, 2), 10);
    assert_eq!(scale_toward_zero(-7, 3, 2), -10);
    assert_eq!(scale_toward_zero(0, 3, 2), 0);
    assert_eq!(scale_toward_zero(3, 850_000, 5), 510_000);
    assert_eq!(scale_toward_zero(1, 1, 2), 0);
    assert_eq!(scale_toward_zero(-1, 1, 2), 0);
}

#[test]
fn saturate_stops_at_the_ends() {
    assert_eq!(saturate(0), 0);
    assert_eq!(saturate(-5), -5);
    assert_eq!(saturate(i64::MAX as i128), i64::MAX);
    assert_eq!(saturate(i64::MAX as i128 + 1), i64::MAX);
    assert_eq!(saturate(i64::MIN as i128 - 1), i64::MIN);
    assert_eq!(saturate(i128::MAX), i64::MAX);
    assert_eq!(saturate(i128::MIN), i64::MIN);
}

#[test]
fn circles_closer_than_their_radii_overlap() {
    let a = Circle::new(0, 0, 5);
    let b = Circle::new(6, 0, 2);
    assert!(a.is_colliding(&b));
    let c = Circle::new(3, 4, 1);
    assert!(a.is_colliding(&c));
}

#[test]
fn circles_further_than_their_radii_do_not_overlap() {
    let a = Circle::new(0, 0, 5);
    let b = Circle::new(8, 0, 2);
    assert!(!a.is_colliding(&b));
    let c = Circle::new(6, 8, 4);
    assert!(!a.is_colliding(&c));
}

#[test]
fn touching_circles_do_not_overlap() {
    // centres 10 apart, radii 4 + 6
    let a = Circle::new(0, 0, 4);
    let b = Circle::new(10, 0, 6);
    assert!(!a.is_colliding(&b));
    // centres 5 apart along the diagonal of a 3-4-5 triangle, radii 2 + 3
    let c = Circle::new(100, 100, 2);
    let d = Circle::new(103, 104, 3);
    assert!(!c.is_colliding(&d));
    // equal radii
    let e = Circle::new(-7, 0, 7);
    let f = Circle::new(7, 0, 7);
    assert!(!e.is_colliding(&f));
    // one unit closer and they do
    let g = Circle::new(6, 0, 7);
    assert!(e.is_colliding(&g));
}

#[test]
fn overlap_is_symmetric() {
    let circles = [
        Circle::new(0, 0, 5),
        Circle::new(6, 0, 2),
        Circle::new(7, 0, 2),
        Circle::new(-3, 9, 0),
        Circle::new(-3, 9, 1),
        Circle::new(i64::MAX, i64::MIN, u64::MAX),
        Circle::new(i64::MIN, i64::MAX, 3),
        Circle::new(500_000_000, 300_000_000, 16_000_000),
    ];
    for a in circles.iter() {
        for b in circles.iter() {
            assert_eq!(a.is_colliding(b), b.is_colliding(a));
        }
    }
}

#[test]
fn circles_without_radius_never_overlap() {
    let a = Circle::new(3, 3, 0);
    let b = Circle::new(3, 3, 0);
    assert!(!a.is_colliding(&b));
    let c = Circle::new(3, 3, 1);
    assert!(a.is_colliding(&c));
}

#[test]
fn overlap_at_the_ends_of_the_range() {
    let far_a = Circle::new(i64::MIN, i64::MIN, 10);
    let far_b = Circle::new(i64::MAX, i64::MAX, 10);
    assert!(!far_a.is_colliding(&far_b));
    // radii large enough to bridge the whole range along one axis
    let wide_a = Circle::new(i64::MIN, 0, u64::MAX);
    let wide_b = Circle::new(i64::MAX, 0, u64::MAX);
    assert!(wide_a.is_colliding(&wide_b));
    // the gap is 2^64 - 1, the radii add up to just that: touching only
    let edge_a = Circle::new(i64::MIN, 0, u64::MAX);
    let edge_b = Circle::new(i64::MAX, 0, 0);
    assert!(!edge_a.is_colliding(&edge_b));
    let edge_c = Circle::new(i64::MAX - 1, 0, 0);
    assert!(edge_a.is_colliding(&edge_c));
}
