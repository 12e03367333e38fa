//! The order of coordinates and of points.

use std::cmp::Ordering;
use voronoi::point::coord_key;
use voronoi::point::coord_lt;
use voronoi::point::Point;

fn pt(x: f64, y: f64) -> Point {
    Point::new(x.to_bits(), y.to_bits())
}

#[test]
fn a_point_holds_its_coordinates() {
    let p = Point::new(3.5f64.to_bits(), (-2.0f64).to_bits());
    assert_eq!(f64::from_bits(p.x()), 3.5);
    assert_eq!(f64::from_bits(p.y()), -2.0);
    assert_eq!(p.x, 3.5f64.to_bits());
    assert_eq!(p.y, (-2.0f64).to_bits());
}

#[test]
fn coordinates_are_ordered_as_the_doubles_are() {
    let values: [f64; 11] = [-1e300, -800.0, -1.0, -1e-300, 0.0, 1e-300, 0.5, 1.0, 2.0, 800.0, 1e300];
    for a in values {
        for b in values {
            assert_eq!(coord_lt(a.to_bits(), b.to_bits()), a < b);
        }
    }
}

#[test]
fn infinities_stand_at_the_ends() {
    assert!(coord_lt(f64::NEG_INFINITY.to_bits(), (-1e308f64).to_bits()));
    assert!(coord_lt(1e308f64.to_bits(), f64::INFINITY.to_bits()));
}

#[test]
fn minus_zero_stands_just_below_zero() {
    assert!(coord_lt((-0.0f64).to_bits(), 0.0f64.to_bits()));
    assert!(!coord_lt(0.0f64.to_bits(), (-0.0f64).to_bits()));
    assert!(coord_lt((-1e-320f64).to_bits(), (-0.0f64).to_bits()));
}

#[test]
fn keys_count_upwards_through_zero() {
    assert_eq!(coord_key(0), 0x8000_0000_0000_0000);
    assert_eq!(coord_key(1), 0x8000_0000_0000_0001);
    assert_eq!(coord_key(0x8000_0000_0000_0000), 0x7fff_ffff_ffff_ffff);
    assert_eq!(coord_key(0x8000_0000_0000_0001), 0x7fff_ffff_ffff_fffe);
    assert_eq!(coord_key(u64::MAX), 0);
    assert_eq!(coord_key(0x7fff_ffff_ffff_ffff), u64::MAX);
}

#[test]
fn a_lower_point_comes_first() {
    assert!(pt(0., 0.).before(&pt(0., 1.)));
    assert!(pt(100., 0.).before(&pt(-100., 1.)));
    assert!(!pt(0., 1.).before(&pt(0., 0.)));
    assert_eq!(pt(0., 0.).cmp(&pt(0., 1.)), Ordering::Less);
    assert_eq!(pt(0., 1.).cmp(&pt(0., 0.)), Ordering::Greater);
}

#[test]
fn at_one_height_the_point_further_right_comes_first() {
    assert!(pt(2., 5.).before(&pt(1., 5.)));
    assert!(!pt(1., 5.).before(&pt(2., 5.)));
    assert_eq!(pt(2., 5.).cmp(&pt(1., 5.)), Ordering::Less);
    assert_eq!(pt(1., 5.).cmp(&pt(2., 5.)), Ordering::Greater);
}

#[test]
fn a_point_is_equal_to_itself_only() {
    assert_eq!(pt(1., 5.).cmp(&pt(1., 5.)), Ordering::Equal);
    assert!(!pt(1., 5.).before(&pt(1., 5.)));
    assert_eq!(pt(1., 5.), pt(1., 5.));
    assert_ne!(pt(1., 5.), pt(1., 6.));
    assert_ne!(pt(0., 5.), pt(-0., 5.));
    assert_ne!(pt(0., 5.).cmp(&pt(-0., 5.)), Ordering::Equal);
}

#[test]
fn the_operators_follow_the_sweep_order() {
    assert!(pt(0., 0.) < pt(0., 1.));
    assert!(pt(2., 5.) < pt(1., 5.));
    assert!(pt(1., 5.) > pt(2., 5.));
    assert!(pt(1., 5.) <= pt(1., 5.));
    assert_eq!(pt(1., 5.).partial_cmp(&pt(1., 6.)), Some(Ordering::Less));
}

#[test]
fn the_order_is_total_on_a_sample() {
    let sample = [pt(0., 0.), pt(1., 0.), pt(-1., 0.), pt(0., 1.), pt(0., -1.), pt(3., 3.), pt(-3., 3.)];
    for a in sample {
        for b in sample {
            let ab = a.before(&b);
            let ba = b.before(&a);
            assert!(!(ab && ba));
            assert_eq!(!ab && !ba, a == b);
            for c in sample {
                if ab && b.before(&c) {
                    assert!(a.before(&c));
                }
            }
        }
    }
}
