use waypaths::data::Point;
use waypaths::util::generate_random_f32;
use waypaths::util::generate_random_i32;
use waypaths::util::place_in_range;
use waypaths::util::round_to;

#[test]
fn random_integer_lies_in_its_range() {
    for _ in 0..200 {
        let r = generate_random_i32(-3, 4);
        assert!(-3 <= r && r <= 4);
    }
    let mut seen = [false; 8];
    for _ in 0..2000 {
        seen[(generate_random_i32(-3, 4) + 3) as usize] = true;
    }
    assert!(seen.iter().all(|s| *s));
}

#[test]
fn random_integer_of_a_single_value() {
    for _ in 0..50 {
        assert_eq!(generate_random_i32(5, 5), 5);
        assert_eq!(generate_random_i32(i32::MIN, i32::MIN), i32::MIN);
        assert_eq!(generate_random_i32(i32::MAX, i32::MAX), i32::MAX);
    }
}

#[test]
fn random_integer_over_the_whole_range() {
    for _ in 0..50 {
        let _ = generate_random_i32(i32::MIN, i32::MAX);
    }
}

#[test]
fn draw_is_moved_into_the_range() {
    assert_eq!(place_in_range(-3, 4, 0), -3);
    assert_eq!(place_in_range(-3, 4, 7), 4);
    assert_eq!(place_in_range(i32::MIN, i32::MAX, u32::MAX as u128), i32::MAX);
}

#[test]
fn rounding_to_a_multiple() {
    assert_eq!(round_to(12, 5), 10);
    assert_eq!(round_to(13, 5), 15);
    assert_eq!(round_to(-12, 5), -10);
    assert_eq!(round_to(-13, 5), -15);
    assert_eq!(round_to(15, 10), 20);
    assert_eq!(round_to(-15, 10), -20);
    assert_eq!(round_to(14, 10), 10);
    assert_eq!(round_to(0, 7), 0);
    assert_eq!(round_to(3, 1), 3);
    assert_eq!(round_to(i32::MAX, 1000), 2_147_484_000);
    assert_eq!(round_to(i32::MIN, 1000), -2_147_484_000);
    assert_eq!(round_to(i32::MAX, i32::MAX), i32::MAX as i64);
    assert_eq!(round_to(1, i32::MAX), 0);
    assert_eq!(round_to(12, -5), 10);
    assert_eq!(round_to(13, -5), 15);
    assert_eq!(round_to(-13, -5), -15);
    assert_eq!(round_to(i32::MIN, i32::MIN), i32::MIN as i64);
    assert_eq!(round_to(i32::MAX, i32::MIN), 2_147_483_648);
}

#[test]
fn random_coordinate_is_a_multiple_near_its_range() {
    for _ in 0..300 {
        let r = generate_random_f32(0, 50_000, 10);
        assert_eq!(r % 10, 0);
        assert!(0 <= r && r <= 50_000);
        let s = generate_random_f32(-7, 7, 5);
        assert!(s == -5 || s == 0 || s == 5 || s == -10 || s == 10);
        assert!(-10 <= s && s <= 10);
        let t = generate_random_f32(3, 3, 2);
        assert_eq!(t, 4);
        let u = generate_random_f32(-20, 20, -10);
        assert!(u == -20 || u == -10 || u == 0 || u == 10 || u == 20);
    }
}

#[test]
fn random_points() {
    for _ in 0..100 {
        let p = Point::generate_random(0, 1000, 100, -500, -400, 50);
        assert_eq!(p.x % 100, 0);
        assert!(0 <= p.x && p.x <= 1000);
        assert_eq!(p.y % 50, 0);
        assert!(-500 <= p.y && p.y <= -400);
        let q = Point::generate_random_proportional(0, 50_000, 10);
        assert_eq!(q.x % 10, 0);
        assert_eq!(q.y % 10, 0);
        assert!(0 <= q.x && q.x <= 50_000);
        assert!(0 <= q.y && q.y <= 50_000);
    }
}

#[test]
fn random_coordinate_at_the_edge_of_the_grid() {
    for _ in 0..100 {
        let r = generate_random_f32(2_147_482_000, 2_147_483_400, 1000);
        assert!(r == 2_147_482_000 || r == 2_147_483_000);
        let s = generate_random_f32(i32::MAX - 3, i32::MAX, 1);
        assert!(s >= i32::MAX - 3);
        let t = generate_random_f32(i32::MIN, i32::MIN + 2, -1);
        assert!(t <= i32::MIN + 2);
    }
}
