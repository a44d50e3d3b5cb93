use waypaths::data::integer_sqrt;
use waypaths::data::Path;
use waypaths::data::Point;

#[test]
fn integer_sqrt_rounds_down() {
    assert_eq!(integer_sqrt(0), 0);
    assert_eq!(integer_sqrt(1), 1);
    assert_eq!(integer_sqrt(3), 1);
    assert_eq!(integer_sqrt(4), 2);
    assert_eq!(integer_sqrt(24), 4);
    assert_eq!(integer_sqrt(25), 5);
    assert_eq!(integer_sqrt(2_000_000), 1414);
    assert_eq!(integer_sqrt(u128::MAX), u64::MAX);
}

#[test]
fn distance_of_a_right_triangle() {
    let a = Point { x: 0, y: 0 };
    let b = Point { x: 3, y: 4 };
    assert_eq!(a.distance_to(&b), 5);
}

#[test]
fn distance_is_rounded_down() {
    let a = Point { x: 0, y: 0 };
    assert_eq!(a.distance_to(&Point { x: 1, y: 1 }), 1);
    assert_eq!(a.distance_to(&Point { x: 1000, y: 1000 }), 1414);
    assert_eq!(a.distance_to(&Point { x: 2, y: 2 }), 2);
}

#[test]
fn distance_is_symmetric_and_zero_to_itself() {
    let points = [
        Point { x: -7, y: 12 },
        Point { x: 40, y: -3 },
        Point { x: 0, y: 0 },
        Point { x: i32::MAX, y: i32::MIN },
    ];
    for a in points.iter() {
        assert_eq!(a.distance_to(a), 0);
        for b in points.iter() {
            assert_eq!(a.distance_to(b), b.distance_to(a));
        }
    }
}

#[test]
fn distance_across_the_whole_grid() {
    let a = Point { x: i32::MIN, y: i32::MIN };
    let b = Point { x: i32::MAX, y: i32::MAX };
    // (2^32 - 1) * sqrt(2), rounded down
    assert_eq!(a.distance_to(&b), 6_074_000_998);
}

#[test]
fn distance_agrees_with_floating_point() {
    let a = Point { x: 12_345, y: -678 };
    let b = Point { x: -9_876, y: 54_321 };
    let dx = (a.x - b.x) as f64;
    let dy = (a.y - b.y) as f64;
    let exact = (dx * dx + dy * dy).sqrt();
    let d = a.distance_to(&b) as f64;
    assert!(d <= exact && exact < d + 1.0);
}

#[test]
fn segment_length_is_the_distance_of_its_ends() {
    let s = Path { start: Point { x: 1, y: 1 }, end: Point { x: 4, y: 5 } };
    assert_eq!(s.length(), 5);
    assert_eq!(Path::default().length(), 0);
}

#[test]
fn default_point_is_the_origin() {
    assert_eq!(Point::default(), Point { x: 0, y: 0 });
}
