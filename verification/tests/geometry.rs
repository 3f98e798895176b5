use slide_cursor::boundary::build_boundary;
use slide_cursor::geometry::intersect;
use slide_cursor::geometry::isqrt;
use slide_cursor::geometry::side_val;
use slide_cursor::geometry::HPoint;
use slide_cursor::geometry::Vec2;

fn v(x: i64, y: i64) -> Vec2 {
    Vec2 { x, y }
}

/// The six-point loop of the boundary model: three inner corners at
/// radius 200 and three outer corners at radius 250, alternating, at angles
/// 90, 210 and 330 degrees, rounded to integer world units.
fn hexagon() -> Vec<Vec2> {
    vec![
        v(0, 200),
        v(0, 250),
        v(-173, -100),
        v(-217, -125),
        v(173, -100),
        v(217, -125),
    ]
}

#[test]
fn isqrt_exact_values() {
    assert_eq!(isqrt(0), 0);
    assert_eq!(isqrt(1), 1);
    assert_eq!(isqrt(3), 1);
    assert_eq!(isqrt(99), 9);
    assert_eq!(isqrt(100), 10);
    assert_eq!(isqrt(8_000_000_000_000), 2_828_427);
}

#[test]
fn intersection_of_known_lines() {
    // lines through (0,0)-(10,0) and (5,-5)-(5,5) meet at (5,0), exactly
    let p = HPoint::from_vec2(v(0, 0));
    let ip = intersect(&p, v(10, 0), v(5, -5), v(0, 10)).unwrap();
    assert!(ip.w > 0);
    assert_eq!(ip.x, 5 * ip.w);
    assert_eq!(ip.y, 0);
}

#[test]
fn parallel_lines_have_no_intersection() {
    // lines through (0,0)-(10,0) and (0,5)-(10,5) are parallel
    let p = HPoint::from_vec2(v(0, 0));
    assert!(intersect(&p, v(10, 0), v(0, 5), v(10, 0)).is_none());
}

#[test]
fn coincident_lines_have_no_intersection() {
    let p = HPoint::from_vec2(v(0, 0));
    assert!(intersect(&p, v(10, 0), v(0, 0), v(10, 0)).is_none());
}

#[test]
fn boundary_construction_windows() {
    let segs = build_boundary(&hexagon());
    assert_eq!(segs.len(), 3);
    // window (p0..p3) gives p0 -> p2, stepped by two around the loop
    assert_eq!(segs[0].start, v(0, 200));
    assert_eq!(segs[0].end, v(-173, -100));
    assert_eq!(segs[1].start, v(-173, -100));
    assert_eq!(segs[1].end, v(173, -100));
    assert_eq!(segs[2].start, v(173, -100));
    assert_eq!(segs[2].end, v(0, 200));
    for (i, sg) in segs.iter().enumerate() {
        assert_eq!(sg.id, i);
        assert_eq!(sg.between, v(sg.end.x - sg.start.x, sg.end.y - sg.start.y));
        assert_eq!(sg.normal, v(sg.between.y, -sg.between.x));
    }
}

#[test]
fn side_test_sign_consistency() {
    // a point strictly inside the hexagon tests <= 0 against all three
    // segments; a point displaced along one outward normal tests > 0 there
    let segs = build_boundary(&hexagon());
    let inside = HPoint::from_vec2(v(0, 0));
    for sg in &segs {
        assert!(side_val(&inside, sg.start, sg.between) <= 0);
    }
    for sg in &segs {
        let out = HPoint::from_vec2(v(
            sg.start.x + sg.normal.x,
            sg.start.y + sg.normal.y,
        ));
        assert!(side_val(&out, sg.start, sg.between) > 0);
    }
}

#[test]
fn cross_product_signs() {
    let a = v(1, 0);
    let b = v(0, 1);
    assert_eq!(a.cross(&b), 1);
    assert_eq!(b.cross(&a), -1);
    assert_eq!(a.cross(&a), 0);
}
