use voronoi::point::{nearest, nearest_index, Distance, Metric, Point};

fn as_real(d: Distance) -> f64 {
    match d {
        Distance::Root(n) => (n as f64).sqrt(),
        Distance::Whole(m) => m as f64,
    }
}

#[test]
fn new_keeps_coordinates() {
    let p = Point::new(-7, 12);
    assert_eq!(p.x, -7);
    assert_eq!(p.y, 12);
    assert_eq!(p, Point { x: -7, y: 12 });
}

#[test]
fn points_are_ordered_by_x_then_y() {
    assert!(Point::new(1, 9) < Point::new(2, 0));
    assert!(Point::new(1, 2) < Point::new(1, 3));
    assert!(Point::new(1, 9).precedes(&Point::new(2, 0)));
    assert!(Point::new(1, 2).precedes(&Point::new(1, 3)));
    assert!(Point::new(1, 3).precedes(&Point::new(1, 3)));
    assert!(!Point::new(2, 0).precedes(&Point::new(1, 9)));
    assert!(!Point::new(1, 3).precedes(&Point::new(1, 2)));
}

#[test]
fn euclidean_distance_is_the_root_of_the_squares() {
    let a = Point::new(0, 0);
    let b = Point::new(3, 4);
    assert_eq!(a.dist_squared(&b), 25);
    assert_eq!(a.dist(&b, Metric::Euclidean), Distance::Root(25));
    assert_eq!(b.dist(&a, Metric::Euclidean), Distance::Root(25));
    assert_eq!(as_real(a.dist(&b, Metric::Euclidean)), 5.0);
}

#[test]
fn euclidean_distance_is_not_squared() {
    let a = Point::new(1, 1);
    let b = Point::new(2, 2);
    let d = as_real(a.dist(&b, Metric::Euclidean));
    assert!((d - 2.0_f64.sqrt()).abs() < 1e-12);
}

#[test]
fn distance_to_itself_is_zero() {
    let a = Point::new(-5, 9);
    assert_eq!(a.dist(&a, Metric::Euclidean), Distance::Root(0));
    assert_eq!(a.dist(&a, Metric::Manhattan), Distance::Whole(0));
}

#[test]
fn manhattan_takes_the_absolute_value_of_x_only() {
    let a = Point::new(0, 0);
    let b = Point::new(3, 4);
    assert_eq!(a.dist(&b, Metric::Manhattan), Distance::Whole(-1));
    assert_eq!(b.dist(&a, Metric::Manhattan), Distance::Whole(7));
    assert_eq!(Point::new(5, 1).dist(&Point::new(2, 1), Metric::Manhattan), Distance::Whole(3));
    assert_eq!(Point::new(2, 1).dist(&Point::new(5, 1), Metric::Manhattan), Distance::Whole(3));
    assert_eq!(Point::new(0, -9).dist(&Point::new(0, 0), Metric::Manhattan), Distance::Whole(-9));
}

#[test]
fn distances_are_defined_at_the_ends_of_the_range() {
    let lo = Point::new(i32::MIN, i32::MIN);
    let hi = Point::new(i32::MAX, i32::MAX);
    let side: u128 = 0xFFFF_FFFF;
    assert_eq!(lo.dist_squared(&hi), 2 * side * side);
    assert_eq!(hi.dist(&lo, Metric::Euclidean), Distance::Root(2 * side * side));
    assert_eq!(hi.dist(&lo, Metric::Manhattan), Distance::Whole(2 * 0xFFFF_FFFF));
    assert_eq!(lo.dist(&hi, Metric::Manhattan), Distance::Whole(0));
}

#[test]
fn distances_compare_as_real_numbers() {
    assert!(Distance::Root(24).lt(&Distance::Root(25)));
    assert!(!Distance::Root(25).lt(&Distance::Root(25)));
    assert!(Distance::Whole(-3).lt(&Distance::Whole(2)));
    assert!(!Distance::Whole(2).lt(&Distance::Whole(2)));
    // sqrt(24) < 5 = sqrt(25) < sqrt(26)
    assert!(Distance::Root(24).lt(&Distance::Whole(5)));
    assert!(!Distance::Root(25).lt(&Distance::Whole(5)));
    assert!(!Distance::Whole(5).lt(&Distance::Root(25)));
    assert!(Distance::Whole(5).lt(&Distance::Root(26)));
    // a negative measure lies below every root, and no root lies below it
    assert!(Distance::Whole(-1).lt(&Distance::Root(0)));
    assert!(!Distance::Root(0).lt(&Distance::Whole(-1)));
    assert!(!Distance::Root(0).lt(&Distance::Whole(0)));
    assert!(!Distance::Whole(0).lt(&Distance::Root(0)));
    assert!(Distance::Root(u128::MAX - 1).lt(&Distance::Root(u128::MAX)));
    assert!(Distance::Whole(i64::MAX).lt(&Distance::Root(u128::MAX)));
    assert!(Distance::Root(1 << 100).lt(&Distance::Whole(i64::MAX)));
    assert!(Distance::Whole(i64::MIN).lt(&Distance::Root(0)));
}

#[test]
fn nearest_picks_the_least_distance() {
    let sites = vec![Point::new(10, 10), Point::new(1, 1), Point::new(5, 5)];
    assert_eq!(nearest_index(Point::new(0, 0), &sites), Some(1));
    assert_eq!(nearest(Point::new(0, 0), &sites), Some(Point::new(1, 1)));
    assert_eq!(nearest(Point::new(9, 9), &sites), Some(Point::new(10, 10)));
    assert_eq!(nearest(Point::new(4, 6), &sites), Some(Point::new(5, 5)));
}

#[test]
fn nearest_breaks_ties_by_the_first_site() {
    let sites = vec![Point::new(4, 0), Point::new(-4, 0), Point::new(0, 4), Point::new(0, 9)];
    assert_eq!(nearest_index(Point::new(0, 0), &sites), Some(0));
    assert_eq!(nearest(Point::new(0, 0), &sites), Some(Point::new(4, 0)));
    let turned = vec![Point::new(0, 9), Point::new(0, 4), Point::new(-4, 0), Point::new(4, 0)];
    assert_eq!(nearest_index(Point::new(0, 0), &turned), Some(1));
}

#[test]
fn nearest_of_no_site_is_none() {
    let sites: Vec<Point> = vec![];
    assert_eq!(nearest_index(Point::new(3, 3), &sites), None);
    assert_eq!(nearest(Point::new(3, 3), &sites), None);
}

#[test]
fn nearest_of_one_site_is_that_site() {
    let sites = vec![Point::new(100, -100)];
    assert_eq!(nearest_index(Point::new(3, 3), &sites), Some(0));
}
