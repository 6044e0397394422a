use platformer_nav::math::{isqrt, isqrt_up, COORD_LIMIT, TIME_UNIT, UNIT};
use platformer_nav::utils::line_intersect;
use platformer_nav::vec2::Vec2;

#[test]
fn isqrt_rounds_down() {
    assert_eq!(isqrt(0), 0);
    assert_eq!(isqrt(1), 1);
    assert_eq!(isqrt(2), 1);
    assert_eq!(isqrt(15), 3);
    assert_eq!(isqrt(16), 4);
    assert_eq!(isqrt(17), 4);
    assert_eq!(isqrt(1_000_000), 1000);
    assert_eq!(isqrt(999_999), 999);
}

#[test]
fn isqrt_of_the_largest_input() {
    assert_eq!(isqrt(u128::MAX), u64::MAX);
    assert_eq!(isqrt(1u128 << 126), 1u64 << 63);
}

#[test]
fn scales_are_a_thousand() {
    assert_eq!(UNIT, 1000);
    assert_eq!(TIME_UNIT, 1000);
    assert_eq!(COORD_LIMIT, 1i64 << 40);
}

#[test]
fn vector_sums_and_differences() {
    let a = Vec2::new(3000, -4000);
    let b = Vec2::new(-1000, 500);
    assert_eq!(a.plus(b), Vec2 { x: 2000, y: -3500 });
    assert_eq!(a.minus(b), Vec2 { x: 4000, y: -4500 });
    assert_eq!(Vec2::zero(), Vec2 { x: 0, y: 0 });
}

#[test]
fn vector_products() {
    let a = Vec2::new(3, 4);
    let b = Vec2::new(-2, 5);
    assert_eq!(a.dot(b), 14);
    assert_eq!(a.cross(b), 23);
    assert_eq!(b.cross(a), -23);
    assert_eq!(a.length_squared(), 25);
    assert_eq!(a.perp(), Vec2 { x: -4, y: 3 });
}

#[test]
fn vector_length_rounds_down() {
    assert_eq!(Vec2::new(3000, 4000).length(), 5000);
    assert_eq!(Vec2::new(1000, 1000).length(), 1414);
    assert_eq!(Vec2::new(0, 0).length(), 0);
    assert_eq!(Vec2::new(-7, 0).length(), 7);
}

#[test]
fn normalize_gives_a_unit_vector() {
    assert_eq!(Vec2::new(3000, 4000).normalize_or_zero(), Vec2 { x: 600, y: 800 });
    assert_eq!(Vec2::new(-3000, 4000).normalize_or_zero(), Vec2 { x: -600, y: 800 });
    assert_eq!(Vec2::new(0, -5).normalize_or_zero(), Vec2 { x: 0, y: -1000 });
    assert_eq!(Vec2::new(-1000, 1000).normalize_or_zero(), Vec2 { x: -707, y: 707 });
}

#[test]
fn directions_of_short_vectors_are_a_unit_long() {
    assert_eq!(Vec2::new(1, 1).normalize_or_zero(), Vec2 { x: 706, y: 706 });
    assert_eq!(Vec2::new(1, 0).normalize_or_zero(), Vec2 { x: 1000, y: 0 });
    assert_eq!(Vec2::new(-1, 2).normalize_or_zero(), Vec2 { x: -447, y: 894 });
    for x in -12i64..=12 {
        for y in -12i64..=12 {
            let d = Vec2::new(x, y).normalize_or_zero();
            let square = d.length_squared();
            if x == 0 && y == 0 {
                assert_eq!(square, 0);
            } else {
                assert!(997 * 997 <= square && square <= 1000 * 1000, "{:?}", (x, y, d));
            }
        }
    }
}

#[test]
fn directions_of_long_vectors_are_a_unit_long() {
    let limit = 1i64 << 52;
    assert_eq!(Vec2::new(limit, limit).normalize_or_zero(), Vec2 { x: 707, y: 707 });
    assert_eq!(Vec2::new(-limit, 0).normalize_or_zero(), Vec2 { x: -1000, y: 0 });
    assert_eq!(Vec2::new(limit, -1).normalize_or_zero(), Vec2 { x: 999, y: 0 });
}

#[test]
fn square_roots_round_up_too() {
    assert_eq!(isqrt_up(0), 0);
    assert_eq!(isqrt_up(1), 1);
    assert_eq!(isqrt_up(2), 2);
    assert_eq!(isqrt_up(16), 4);
    assert_eq!(isqrt_up(17), 5);
    assert_eq!(isqrt_up(1u128 << 126), 1u64 << 63);
}

#[test]
fn normalize_of_zero_is_zero() {
    assert_eq!(Vec2::new(0, 0).normalize_or_zero(), Vec2 { x: 0, y: 0 });
}

#[test]
fn scaled_rounds_toward_zero() {
    assert_eq!(Vec2::new(10, -10).scaled(1, 3), Vec2 { x: 3, y: -3 });
    assert_eq!(Vec2::new(1000, -1000).scaled(8000, 1000), Vec2 { x: 8000, y: -8000 });
    assert_eq!(Vec2::new(-707, 707).scaled(8000, 1000), Vec2 { x: -5656, y: 5656 });
    assert_eq!(Vec2::new(7, 7).scaled(0, 5), Vec2 { x: 0, y: 0 });
}

#[test]
fn crossing_segments_intersect() {
    assert!(line_intersect(Vec2::new(0, 0), Vec2::new(10, 10), Vec2::new(0, 10), Vec2::new(10, 0)));
    assert!(line_intersect(Vec2::new(0, 10), Vec2::new(10, 0), Vec2::new(0, 0), Vec2::new(10, 10)));
    assert!(line_intersect(Vec2::new(10, 10), Vec2::new(0, 0), Vec2::new(10, 0), Vec2::new(0, 10)));
}

#[test]
fn touching_segments_intersect() {
    assert!(line_intersect(Vec2::new(0, 0), Vec2::new(10, 0), Vec2::new(10, 0), Vec2::new(10, 10)));
    assert!(line_intersect(Vec2::new(0, 0), Vec2::new(10, 0), Vec2::new(5, 0), Vec2::new(5, 10)));
}

#[test]
fn segments_apart_do_not_intersect() {
    assert!(!line_intersect(Vec2::new(0, 0), Vec2::new(10, 0), Vec2::new(11, -5), Vec2::new(11, 5)));
    assert!(!line_intersect(Vec2::new(0, 0), Vec2::new(10, 10), Vec2::new(0, 1), Vec2::new(-10, 20)));
}

#[test]
fn parallel_segments_never_intersect() {
    assert!(!line_intersect(Vec2::new(0, 0), Vec2::new(10, 0), Vec2::new(0, 1), Vec2::new(10, 1)));
    // Collinear and overlapping.
    assert!(!line_intersect(Vec2::new(0, 0), Vec2::new(10, 0), Vec2::new(5, 0), Vec2::new(15, 0)));
    // A segment without length has no direction to cross.
    assert!(!line_intersect(Vec2::new(5, 0), Vec2::new(5, 0), Vec2::new(0, 0), Vec2::new(10, 0)));
}

#[test]
fn within_is_inclusive() {
    assert!(Vec2::new(5, -5).is_within(5));
    assert!(!Vec2::new(6, 0).is_within(5));
    assert!(!Vec2::new(0, -6).is_within(5));
    assert!(Vec2::new(0, 0).is_within(0));
}
