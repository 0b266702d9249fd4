use voronoi::dulaney::dulaney_triangulation;
use voronoi::point::Point;
use voronoi::ratio::Ratio;
use voronoi::triangle::{Center, GeometryError, Radius, Triangle};
use voronoi::wide::{mul_wide, Wide};

fn same_value(r: Ratio, num: i128, den: i128) -> bool {
    r.den > 0 && den > 0 && r.num * den == num * r.den
}

/// Whether the centre is `(xn / xd, yn / yd)`.
fn centre_is(c: Center, xn: i128, xd: i128, yn: i128, yd: i128) -> bool {
    same_value(c.x, xn, xd) && same_value(c.y, yn, yd) && c.x.den == c.y.den
}

/// Whether the squared radius is `num / den`, for small values.
fn radius_squared_is(r: Radius, num: u128, den: u128) -> bool {
    let d = r.den as u128;
    r.den > 0 && r.square.hi == 0 && r.square.lo * den == num * d * d
}

fn radius(r: Radius) -> f64 {
    (r.square.hi as f64 * 2.0_f64.powi(128) + r.square.lo as f64).sqrt() / r.den as f64
}

fn tri(a: (i32, i32), b: (i32, i32), c: (i32, i32)) -> Triangle {
    Triangle::new(Point::new(a.0, a.1), Point::new(b.0, b.1), Point::new(c.0, c.1)).unwrap()
}

fn points(list: &[(i32, i32)]) -> Vec<Point> {
    list.iter().map(|p| Point::new(p.0, p.1)).collect()
}

/// No site that is not a vertex of a triangle lies strictly inside its
/// circumcircle, and every site is a vertex of some triangle.
fn is_delaunay(sites: &[Point], triangles: &[Triangle]) -> bool {
    triangles
        .iter()
        .all(|t| sites.iter().all(|s| t.has_vertex(*s) || !t.circumcircle_contains(s)))
}

#[test]
fn three_sites_give_their_one_triangle() {
    let sites = [Point::new(0, 0), Point::new(4, 0), Point::new(2, 4)];
    for (width, height) in [(10, 10), (20, 20), (5, 5), (1600, 900)] {
        let triangles = dulaney_triangulation(&sites, width, height).unwrap();
        assert_eq!(triangles.len(), 1);
        let t = triangles[0];
        assert!(t.has_vertex(sites[0]) && t.has_vertex(sites[1]) && t.has_vertex(sites[2]));
        assert_eq!(t, tri((2, 4), (0, 0), (4, 0)));
        assert!(centre_is(t.circumcenter, 2, 1, 3, 2));
        assert!(radius_squared_is(t.circumradius, 25, 4));
        assert!((radius(t.circumradius) - 2.5).abs() < 1e-12);
        assert_eq!(t.circumcenter.rounded(), Point::new(2, 1));
    }
}

#[test]
fn triangle_holds_its_vertices_and_sides() {
    let (a, b, c) = (Point::new(0, 0), Point::new(4, 0), Point::new(2, 4));
    let t = Triangle::new(a, b, c).unwrap();
    assert_eq!((t.p1, t.p2, t.p3), (a, b, c));
    assert_eq!(t.edges, [(a, b), (b, c), (c, a)]);
    assert!(t.has_vertex(a) && t.has_vertex(b) && t.has_vertex(c));
    assert!(!t.has_vertex(Point::new(2, 1)));
    assert!(t.has_edge(&(a, b)) && t.has_edge(&(b, c)) && t.has_edge(&(c, a)));
    assert!(!t.has_edge(&(b, a)) && !t.has_edge(&(c, b)) && !t.has_edge(&(a, c)));
    assert!(!t.has_edge(&(a, a)));
}

#[test]
fn circumcircle_of_a_right_triangle() {
    // the centre is the middle of the hypotenuse
    let (c, r) = Triangle::circumcircle(Point::new(0, 0), Point::new(6, 0), Point::new(0, 8)).unwrap();
    assert!(centre_is(c, 3, 1, 4, 1));
    assert!(radius_squared_is(r, 25, 1));
    let (c, r) = Triangle::circumcircle(Point::new(-3, -4), Point::new(3, 4), Point::new(-3, 4)).unwrap();
    assert!(centre_is(c, 0, 1, 0, 1));
    assert!(radius_squared_is(r, 25, 1));
}

#[test]
fn circumcentre_is_exact() {
    let (c, r) = Triangle::circumcircle(Point::new(0, 0), Point::new(4, 0), Point::new(2, 4)).unwrap();
    assert!(centre_is(c, 2, 1, 3, 2));
    assert!(radius_squared_is(r, 25, 4));
    assert_eq!(c.rounded(), Point::new(2, 1));
    let (c, _) = Triangle::circumcircle(Point::new(0, 0), Point::new(-4, 0), Point::new(-2, -4)).unwrap();
    assert!(centre_is(c, -2, 1, -3, 2));
    assert_eq!(c.rounded(), Point::new(-2, -1));
    // a small triangle: the centre is (1/2, 1/2) and the radius is not zero
    let (c, r) = Triangle::circumcircle(Point::new(1, 0), Point::new(0, 0), Point::new(0, 1)).unwrap();
    assert!(centre_is(c, 1, 2, 1, 2));
    assert!(radius_squared_is(r, 1, 2));
    assert_eq!(c.rounded(), Point::new(0, 0));
    let (c, r) = Triangle::circumcircle(Point::new(0, 0), Point::new(3, 1), Point::new(1, 4)).unwrap();
    assert!(centre_is(c, 23, 22, 41, 22));
    assert!(radius_squared_is(r, 2210, 484));
}

#[test]
fn circumcircle_does_not_depend_on_the_order() {
    for (a, b, c) in [
        (Point::new(1, 7), Point::new(-5, 2), Point::new(9, -3)),
        (Point::new(0, 0), Point::new(3, 1), Point::new(1, 4)),
        (Point::new(0, 0), Point::new(5, 0), Point::new(1, 4)),
        (Point::new(2, 3), Point::new(2, 9), Point::new(-6, 3)),
    ] {
        let first = Triangle::circumcircle(a, b, c).unwrap();
        for (x, y, z) in [(a, c, b), (b, a, c), (b, c, a), (c, a, b), (c, b, a)] {
            assert_eq!(Triangle::circumcircle(x, y, z).unwrap(), first);
        }
    }
}

#[test]
fn circumcentre_is_as_far_from_every_vertex() {
    let (a, b, c) = (Point::new(1, 7), Point::new(-5, 2), Point::new(9, -3));
    let (centre, r) = Triangle::circumcircle(a, b, c).unwrap();
    let d = centre.x.den;
    for p in [a, b, c] {
        let dx = centre.x.num - p.x as i128 * d;
        let dy = centre.y.num - p.y as i128 * d;
        assert_eq!(r.square, Wide { hi: 0, lo: (dx * dx + dy * dy) as u128 });
    }
    assert_eq!(r.den, d);
}

#[test]
fn points_on_one_line_have_no_circumcircle() {
    let e = Err(GeometryError::Degenerate);
    assert_eq!(Triangle::circumcircle(Point::new(0, 0), Point::new(1, 1), Point::new(5, 5)), e);
    assert_eq!(Triangle::circumcircle(Point::new(0, 0), Point::new(4, 0), Point::new(9, 0)), e);
    assert_eq!(Triangle::circumcircle(Point::new(3, 0), Point::new(3, 4), Point::new(3, -9)), e);
    assert_eq!(Triangle::circumcircle(Point::new(3, 1), Point::new(3, 1), Point::new(7, 2)), e);
    assert_eq!(Triangle::circumcircle(Point::new(3, 1), Point::new(7, 2), Point::new(3, 1)), e);
    assert_eq!(Triangle::circumcircle(Point::new(3, 1), Point::new(3, 1), Point::new(3, 1)), e);
    assert_eq!(
        Triangle::circumcircle(
            Point::new(i32::MIN, i32::MIN),
            Point::new(0, 0),
            Point::new(i32::MAX, i32::MAX)
        ),
        e
    );
    assert!(matches!(
        Triangle::new(Point::new(0, 0), Point::new(2, 4), Point::new(3, 6)),
        Err(GeometryError::Degenerate)
    ));
}

#[test]
fn circumcircle_of_far_points_is_exact() {
    let (a, b, c) = (
        Point::new(i32::MIN, i32::MIN),
        Point::new(i32::MAX, i32::MIN),
        Point::new(i32::MIN, i32::MAX),
    );
    let t = Triangle::new(a, b, c).unwrap();
    assert!(centre_is(t.circumcenter, -1, 2, -1, 2));
    // the squared radius is s^2 / 2 with s = 2^32 - 1, and the denominator
    // is 2 s^2: the stored square is 2 s^6
    let side: u128 = 0xFFFF_FFFF;
    let cube = side * side * side;
    assert_eq!(t.circumradius.den as u128, 2 * side * side);
    assert_eq!(t.circumradius.square, mul_wide(cube, 2 * cube));
    assert!(!t.circumcircle_contains(&a));
    assert!(!t.circumcircle_contains(&Point::new(i32::MAX, i32::MAX)));
    assert!(t.circumcircle_contains(&Point::new(i32::MAX - 1, i32::MAX)));
    assert!(t.circumcircle_contains(&Point::new(0, 0)));
    // nearly flat: the centre lies far beyond the coordinates
    let flat = Triangle::new(Point::new(i32::MIN, 0), Point::new(0, 1), Point::new(i32::MAX, 0))
        .unwrap();
    assert_eq!(flat.circumcenter.rounded().y, i32::MIN);
    assert!(flat.circumradius.square.hi > 0);
    assert!(flat.circumcircle_contains(&Point::new(0, 0)));
    assert!(!flat.circumcircle_contains(&Point::new(0, 2)));
    assert!(!flat.circumcircle_contains(&Point::new(0, 1)));
}

#[test]
fn circumcircle_holds_what_is_strictly_inside() {
    let t = tri((0, 0), (6, 0), (0, 8));
    assert!(t.circumcircle_contains(&Point::new(3, 4)));
    assert!(t.circumcircle_contains(&Point::new(6, 7)));
    // on the circle: (6, 8), (3, 9), (8, 4) and the vertices
    assert!(!t.circumcircle_contains(&Point::new(6, 8)));
    assert!(!t.circumcircle_contains(&Point::new(3, 9)));
    assert!(!t.circumcircle_contains(&Point::new(8, 4)));
    assert!(!t.circumcircle_contains(&Point::new(0, 0)));
    assert!(!t.circumcircle_contains(&Point::new(6, 0)));
    assert!(!t.circumcircle_contains(&Point::new(0, 8)));
    assert!(!t.circumcircle_contains(&Point::new(9, 9)));
    // the circle through (0,0), (1,1), (0,1) passes through (1,0)
    let small = tri((0, 0), (1, 1), (0, 1));
    assert!(!small.circumcircle_contains(&Point::new(1, 0)));
    assert!(!small.circumcircle_contains(&Point::new(1, 1)));
    assert!(!small.circumcircle_contains(&Point::new(2, 0)));
}

#[test]
fn triangles_are_equal_by_their_vertices() {
    let t = tri((0, 0), (4, 0), (2, 4));
    assert_eq!(t, tri((0, 0), (4, 0), (2, 4)));
    assert_eq!(t, tri((4, 0), (2, 4), (0, 0)));
    assert_eq!(t, tri((2, 4), (4, 0), (0, 0)));
    assert_ne!(t, tri((0, 0), (4, 0), (2, 5)));
    assert_ne!(t, tri((0, 1), (4, 0), (2, 4)));
}

#[test]
fn no_site_gives_no_triangle() {
    assert_eq!(dulaney_triangulation(&[], 10, 10), Ok(vec![]));
    assert_eq!(dulaney_triangulation(&[], 1600, 900), Ok(vec![]));
}

#[test]
fn one_or_two_sites_give_no_triangle() {
    assert_eq!(dulaney_triangulation(&[Point::new(3, 3)], 10, 10), Ok(vec![]));
    assert_eq!(dulaney_triangulation(&[Point::new(3, 3), Point::new(6, 6)], 10, 10), Ok(vec![]));
}

#[test]
fn sites_on_one_line_give_no_triangle() {
    let sites = points(&[(3, 3), (3, 5), (3, 7)]);
    assert_eq!(dulaney_triangulation(&sites, 10, 10), Ok(vec![]));
    let sites = points(&[(3, 4), (5, 5), (7, 6)]);
    assert_eq!(dulaney_triangulation(&sites, 10, 10), Ok(vec![]));
}

#[test]
fn site_given_twice_counts_once() {
    let sites = points(&[(1, 1), (1, 1), (3, 2), (4, 7)]);
    assert_eq!(dulaney_triangulation(&sites, 10, 10), Ok(vec![tri((1, 1), (3, 2), (4, 7))]));
}

#[test]
fn flat_surrounding_triangle_is_an_error() {
    assert_eq!(dulaney_triangulation(&[], 0, 10), Err(GeometryError::Degenerate));
    assert_eq!(dulaney_triangulation(&[Point::new(5, 5)], 0, 10), Err(GeometryError::Degenerate));
}

#[test]
fn site_on_a_side_of_the_surrounding_triangle_is_an_error() {
    assert_eq!(dulaney_triangulation(&[Point::new(4, -1)], 10, 10), Err(GeometryError::Degenerate));
}

#[test]
fn four_sites_in_convex_position_give_two_triangles() {
    let sites = points(&[(1, 1), (8, 1), (8, 7), (1, 7)]);
    let triangles = dulaney_triangulation(&sites, 10, 10).unwrap();
    assert_eq!(triangles, vec![tri((1, 1), (8, 1), (8, 7)), tri((1, 1), (8, 7), (1, 7))]);
    assert!(centre_is(triangles[0].circumcenter, 9, 2, 4, 1));
    assert!(radius_squared_is(triangles[0].circumradius, 85, 4));
    assert!(is_delaunay(&sites, &triangles));
    let sites = points(&[(1, 1), (8, 2), (7, 8), (2, 7)]);
    let triangles = dulaney_triangulation(&sites, 10, 10).unwrap();
    assert_eq!(triangles, vec![tri((1, 1), (8, 2), (2, 7)), tri((8, 2), (7, 8), (2, 7))]);
    assert!(is_delaunay(&sites, &triangles));
}

#[test]
fn site_inside_a_triangle_gives_three_triangles() {
    let sites = points(&[(2, 2), (7, 3), (4, 8), (5, 5)]);
    let triangles = dulaney_triangulation(&sites, 10, 10).unwrap();
    assert_eq!(
        triangles,
        vec![tri((2, 2), (7, 3), (5, 5)), tri((7, 3), (4, 8), (5, 5)), tri((4, 8), (2, 2), (5, 5))]
    );
    for t in triangles.iter() {
        assert_eq!(t.p3, Point::new(5, 5));
    }
    assert!(is_delaunay(&sites, &triangles));
}

#[test]
fn five_sites_give_four_triangles() {
    let sites = points(&[(1, 1), (9, 1), (5, 8), (5, 3), (3, 5)]);
    let triangles = dulaney_triangulation(&sites, 10, 10).unwrap();
    assert_eq!(
        triangles,
        vec![
            tri((1, 1), (9, 1), (5, 3)),
            tri((9, 1), (5, 8), (5, 3)),
            tri((1, 1), (5, 3), (3, 5)),
            tri((5, 3), (5, 8), (3, 5)),
        ]
    );
    assert!(is_delaunay(&sites, &triangles));
}

#[test]
fn narrow_quadrilaterals_are_cut_the_right_way() {
    let sites = points(&[(7, 5), (6, 3), (6, 4), (5, 0)]);
    let triangles = dulaney_triangulation(&sites, 10, 10).unwrap();
    assert_eq!(triangles, vec![tri((6, 3), (7, 5), (6, 4)), tri((6, 3), (6, 4), (5, 0))]);
    assert!(is_delaunay(&sites, &triangles));
    let sites = points(&[(6, 0), (3, 3), (7, 0), (2, 9)]);
    let triangles = dulaney_triangulation(&sites, 10, 10).unwrap();
    assert_eq!(triangles, vec![tri((3, 3), (6, 0), (7, 0)), tri((3, 3), (7, 0), (2, 9))]);
    assert!(is_delaunay(&sites, &triangles));
    for s in sites.iter() {
        assert!(triangles.iter().any(|t| t.has_vertex(*s)));
    }
    let sites = points(&[(5, 3), (1, 1), (1, 2), (5, 5)]);
    let triangles = dulaney_triangulation(&sites, 6, 6).unwrap();
    assert_eq!(triangles, vec![tri((1, 1), (5, 3), (1, 2)), tri((1, 2), (5, 3), (5, 5))]);
    assert!(is_delaunay(&sites, &triangles));
}

#[test]
fn result_does_not_depend_on_the_order_of_the_sites() {
    let sites = points(&[(6, 0), (3, 3), (7, 0), (2, 9)]);
    let first = dulaney_triangulation(&sites, 10, 10).unwrap();
    let orders: [[usize; 4]; 5] = [[1, 0, 2, 3], [3, 2, 1, 0], [2, 3, 0, 1], [0, 3, 1, 2], [3, 0, 2, 1]];
    for order in orders {
        let turned: Vec<Point> = order.iter().map(|i| sites[*i]).collect();
        let triangles = dulaney_triangulation(&turned, 10, 10).unwrap();
        assert_eq!(triangles.len(), first.len());
        for t in triangles.iter() {
            assert!(first.contains(t));
        }
        assert!(is_delaunay(&sites, &triangles));
    }
}

#[test]
fn triangulation_on_a_large_grid() {
    let sites = points(&[(100, 100), (500, 120), (300, 400), (320, 200)]);
    let triangles = dulaney_triangulation(&sites, 1600, 900).unwrap();
    assert_eq!(
        triangles,
        vec![
            tri((100, 100), (500, 120), (320, 200)),
            tri((500, 120), (300, 400), (320, 200)),
            tri((300, 400), (100, 100), (320, 200)),
        ]
    );
    assert!(is_delaunay(&sites, &triangles));
}

#[test]
fn returned_triangles_are_delaunay_and_use_only_sites() {
    let sites = points(&[(3, 4), (12, 2), (7, 9), (15, 13), (1, 16), (10, 18), (18, 6)]);
    let (width, height) = (20, 20);
    let corners = [Point::new(10, 40), Point::new(-20, -1), Point::new(40, -1)];
    let triangles = dulaney_triangulation(&sites, width, height).unwrap();
    assert_eq!(triangles.len(), 6);
    assert_eq!(triangles[0], tri((3, 4), (12, 2), (7, 9)));
    assert_eq!(triangles[5], tri((15, 13), (7, 9), (18, 6)));
    for t in triangles.iter() {
        for v in [t.p1, t.p2, t.p3] {
            assert!(sites.contains(&v));
            assert!(!corners.contains(&v));
        }
    }
    assert!(is_delaunay(&sites, &triangles));
    for s in sites.iter() {
        assert!(triangles.iter().any(|t| t.has_vertex(*s)));
    }
}
