use sat_collision::BoundingPolygon;
use sat_collision::Point;
use sat_collision::collides;
use sat_collision::find_max_min_projection;

fn poly(corners: &[(i64, i64)]) -> BoundingPolygon {
    let mut v: Vec<Point> = Vec::new();
    for &(x, y) in corners {
        v.push(Point { x, y });
    }
    let mut p = BoundingPolygon::default();
    p.bounding_polygon(&v);
    p
}

fn translated(corners: &[(i64, i64)], dx: i64, dy: i64) -> Vec<(i64, i64)> {
    let mut v: Vec<(i64, i64)> = Vec::new();
    for &(x, y) in corners {
        v.push((x + dx, y + dy));
    }
    v
}

const TRIANGLE: [(i64, i64); 3] = [(0, -30), (-30, 30), (30, 30)];
const SQUARE: [(i64, i64); 4] = [(0, 0), (10, 0), (10, 10), (0, 10)];

#[test]
fn triangles_far_apart_do_not_collide() {
    let a = poly(&TRIANGLE);
    let b = poly(&translated(&TRIANGLE, 1000, 1000));
    assert!(!collides(&a, &b));
}

#[test]
fn identical_triangles_collide() {
    let a = poly(&TRIANGLE);
    let b = poly(&translated(&TRIANGLE, 0, 0));
    assert!(collides(&a, &b));
}

#[test]
fn touching_squares_collide() {
    let a = poly(&SQUARE);
    let b = poly(&translated(&SQUARE, 10, 0));
    assert!(collides(&a, &b));
}

#[test]
fn squares_just_apart_do_not_collide() {
    // The same two squares in thousandths of a unit, the second one moved
    // a thousandth further: clear of the first by exactly that thousandth.
    let big: [(i64, i64); 4] = [(0, 0), (10_000, 0), (10_000, 10_000), (0, 10_000)];
    let a = poly(&big);
    let b = poly(&translated(&big, 10_001, 0));
    assert!(!collides(&a, &b));
}

#[test]
fn triangles_far_apart_along_each_axis() {
    let a = poly(&TRIANGLE);
    assert!(!collides(&a, &poly(&translated(&TRIANGLE, 5000, 0))));
    assert!(!collides(&a, &poly(&translated(&TRIANGLE, -5000, 0))));
    assert!(!collides(&a, &poly(&translated(&TRIANGLE, 0, 5000))));
    assert!(!collides(&a, &poly(&translated(&TRIANGLE, 0, -5000))));
}

#[test]
fn triangles_touching_at_a_vertex_collide() {
    let a = poly(&[(0, 0), (30, 0), (0, 30)]);
    let b = poly(&translated(&[(0, 0), (30, 0), (0, 30)], 30, 0));
    assert!(collides(&a, &b));
}

#[test]
fn collision_is_symmetric() {
    let a = poly(&SQUARE);
    let overlapping = poly(&translated(&SQUARE, 5, 5));
    let apart = poly(&translated(&SQUARE, 50, 0));
    assert_eq!(collides(&a, &overlapping), collides(&overlapping, &a));
    assert!(collides(&a, &overlapping));
    assert_eq!(collides(&a, &apart), collides(&apart, &a));
    assert!(!collides(&a, &apart));
}

#[test]
fn square_collides_with_itself() {
    let a = poly(&SQUARE);
    let b = poly(&SQUARE);
    assert!(collides(&a, &b));
}

#[test]
fn square_yields_two_axes() {
    let p = poly(&SQUARE);
    assert_eq!(p.normals.len(), 2);
}

#[test]
fn triangle_yields_three_axes() {
    let p = poly(&TRIANGLE);
    assert_eq!(p.normals.len(), 3);
}

#[test]
fn trapezoid_parallel_edges_share_an_axis() {
    // The two horizontal edges differ in length but lie on parallel lines,
    // so they contribute one axis between them.
    let p = poly(&[(0, 0), (10, 0), (8, 5), (2, 5)]);
    assert_eq!(p.normals.len(), 3);
}

#[test]
fn repeated_corner_is_skipped() {
    let p = poly(&[(0, 0), (0, 0), (10, 0), (10, 10), (0, 10)]);
    assert_eq!(p.normals.len(), 2);
}

#[test]
fn update_replaces_previous_normals() {
    let mut p = poly(&SQUARE);
    assert_eq!(p.normals.len(), 2);
    let mut v: Vec<Point> = Vec::new();
    for &(x, y) in TRIANGLE.iter() {
        v.push(Point { x, y });
    }
    p.bounding_polygon(&v);
    assert_eq!(p.corners.len(), 3);
    assert_eq!(p.normals.len(), 3);
}

#[test]
fn projection_interval_of_square() {
    let p = poly(&SQUARE);
    let horizontal = find_max_min_projection(&p, Point { x: 1, y: 0 });
    assert_eq!(horizontal.min, 0);
    assert_eq!(horizontal.max, 10);
    let diagonal = find_max_min_projection(&p, Point { x: 1, y: 1 });
    assert_eq!(diagonal.min, 0);
    assert_eq!(diagonal.max, 20);
}

#[test]
fn minmax_holds_its_ends() {
    let mm = sat_collision::MinMax::new(-3, 7);
    assert_eq!(mm.min, -3);
    assert_eq!(mm.max, 7);
}

#[test]
fn gcd_of_machine_integers() {
    assert_eq!(sat_collision::num::gcd_u64(12, 18), 6);
    assert_eq!(sat_collision::num::gcd_u64(0, 5), 5);
    assert_eq!(sat_collision::num::gcd_u64(7, 0), 7);
    assert_eq!(sat_collision::num::gcd_u64(35, 21), 7);
}

#[test]
fn canonical_axis_reduces_and_fixes_sign() {
    let d = sat_collision::geom::canonical_axis(4, -6);
    assert_eq!(d, Point { x: -2, y: 3 });
    let d = sat_collision::geom::canonical_axis(-4, 6);
    assert_eq!(d, Point { x: -2, y: 3 });
    let d = sat_collision::geom::canonical_axis(-5, 0);
    assert_eq!(d, Point { x: 1, y: 0 });
    let d = sat_collision::geom::canonical_axis(0, 9);
    assert_eq!(d, Point { x: 0, y: 1 });
}

#[test]
fn default_polygon_is_empty() {
    let p = BoundingPolygon::default();
    assert_eq!(p.corners.len(), 0);
    assert_eq!(p.normals.len(), 0);
}
