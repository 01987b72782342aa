use raytracing::aabb::{Aabb, Slab};
use raytracing::hittable::{misses_window, nearest_root, HitRecord};
use raytracing::scalar::Scalar;
use raytracing::vec3::{Point3, Vec3};
use std::cmp::Ordering;

fn s(x: f64) -> Scalar {
    Scalar::from_bits(x.to_bits())
}

fn f(x: Scalar) -> f64 {
    f64::from_bits(x.to_bits())
}

fn samples() -> Vec<f64> {
    vec![
        0.0,
        -0.0,
        1.0,
        -1.0,
        0.001,
        -0.001,
        1.5,
        2.0,
        1e-310,
        -1e-310,
        1e300,
        -1e300,
        f64::MIN_POSITIVE,
        f64::MAX,
        f64::MIN,
        f64::INFINITY,
        f64::NEG_INFINITY,
        f64::NAN,
        -f64::NAN,
    ]
}

fn point(x: f64, y: f64, z: f64) -> Point3 {
    Point3::new(s(x), s(y), s(z))
}

fn slabs(min: [f64; 3], max: [f64; 3], origin: [f64; 3], direction: [f64; 3]) -> [Slab; 3] {
    let mut out = [Slab { inv_d: s(0.0), t0: s(0.0), t1: s(0.0) }; 3];
    for a in 0..3 {
        let inv_d = 1.0 / direction[a];
        out[a] = Slab {
            inv_d: s(inv_d),
            t0: s((min[a] - origin[a]) * inv_d),
            t1: s((max[a] - origin[a]) * inv_d),
        };
    }
    out
}

#[test]
fn bits_round_trip() {
    for x in samples() {
        assert_eq!(s(x).to_bits(), x.to_bits());
    }
    assert_eq!(s(0.0).key, 0);
    assert_eq!(s(-0.0).key, -1);
    assert_eq!(s(1.0).key, 0x3FF0_0000_0000_0000);
    assert_eq!(s(f64::INFINITY).key, 0x7FF0_0000_0000_0000);
    assert_eq!(s(f64::NEG_INFINITY).key, -0x7FF0_0000_0000_0001);
    assert_eq!(Scalar::from_bits(u64::MAX).key, i64::MIN);
    assert_eq!(Scalar { key: i64::MIN }.to_bits(), u64::MAX);
    assert_eq!(Scalar::zero().to_bits(), 0);
    assert_eq!(f(Scalar::infinity()), f64::INFINITY);
}

#[test]
fn comparisons_agree_with_the_numbers() {
    for a in samples() {
        assert_eq!(s(a).is_nan(), a.is_nan());
        for b in samples() {
            assert_eq!(s(a).lt(s(b)), a < b, "{} < {}", a, b);
            assert_eq!(s(a).le(s(b)), a <= b, "{} <= {}", a, b);
            assert_eq!(s(a).gt(s(b)), a > b, "{} > {}", a, b);
            assert_eq!(s(a).ge(s(b)), a >= b, "{} >= {}", a, b);
            assert_eq!(s(a).total_cmp(s(b)), a.total_cmp(&b), "{} cmp {}", a, b);
        }
    }
}

#[test]
fn min_and_max_ignore_nan() {
    for a in samples() {
        for b in samples() {
            let lo = f(s(a).min(s(b)));
            let hi = f(s(a).max(s(b)));
            if a.is_nan() && b.is_nan() {
                assert!(lo.is_nan() && hi.is_nan());
            } else {
                assert!(lo == a.min(b), "min({}, {}) = {}", a, b, lo);
                assert!(hi == a.max(b), "max({}, {}) = {}", a, b, hi);
            }
        }
    }
    assert_eq!(s(1.0).min(s(2.0)), s(1.0));
    assert_eq!(s(1.0).max(s(2.0)), s(2.0));
    assert_eq!(s(f64::NAN).min(s(2.0)), s(2.0));
    assert_eq!(s(3.0).max(s(f64::NAN)), s(3.0));
}

#[test]
fn total_order_of_zeros_and_nans() {
    assert_eq!(s(-0.0).total_cmp(s(0.0)), Ordering::Less);
    assert_eq!(s(0.0).total_cmp(s(0.0)), Ordering::Equal);
    assert_eq!(s(f64::NAN).total_cmp(s(f64::INFINITY)), Ordering::Greater);
    assert!(!s(-0.0).lt(s(0.0)));
    assert!(s(-0.0).le(s(0.0)) && s(0.0).le(s(-0.0)));
}

#[test]
fn vec3_reads_and_bounds() {
    let u = point(1.0, 5.0, -3.0);
    let v = point(2.0, 4.0, -3.5);
    assert_eq!(f(u.x()), 1.0);
    assert_eq!(f(u.y()), 5.0);
    assert_eq!(f(u.z()), -3.0);
    assert_eq!(f(u.index(0)), 1.0);
    assert_eq!(f(u.index(1)), 5.0);
    assert_eq!(f(u.index(2)), -3.0);
    assert_eq!(u.min(v), point(1.0, 4.0, -3.5));
    assert_eq!(u.max(v), point(2.0, 5.0, -3.0));
    assert_eq!(Vec3::zero(), point(0.0, 0.0, 0.0));
}

#[test]
fn slab_test_unit_box() {
    let min = [0.0, 0.0, 0.0];
    let max = [1.0, 1.0, 1.0];
    // a ray along z through the middle of the box enters at 5 and leaves at 6
    let through = slabs(min, max, [0.5, 0.5, -5.0], [0.0, 0.0, 1.0]);
    assert_eq!(f(through[2].t0), 5.0);
    assert_eq!(f(through[2].t1), 6.0);
    assert!(Aabb::hit(&through, s(0.001), s(f64::INFINITY)));
    assert!(Aabb::hit(&through, s(0.0), s(5.5)));
    assert!(Aabb::hit(&through, s(5.5), s(100.0)));
    assert!(!Aabb::hit(&through, s(0.001), s(4.0)));
    assert!(!Aabb::hit(&through, s(0.001), s(5.0)));
    assert!(!Aabb::hit(&through, s(6.0), s(100.0)));
    // the same ray, pointing away
    let away = slabs(min, max, [0.5, 0.5, -5.0], [0.0, 0.0, -1.0]);
    assert!(!Aabb::hit(&away, s(0.001), s(f64::INFINITY)));
    // beside the box
    let beside = slabs(min, max, [1.5, 0.5, -5.0], [0.0, 0.0, 1.0]);
    assert!(!Aabb::hit(&beside, s(0.001), s(f64::INFINITY)));
    // a diagonal through the box, backwards along x
    let diagonal = slabs(min, max, [2.0, 0.5, 0.5], [-1.0, 0.0, 0.0]);
    assert_eq!(f(diagonal[0].t0), 2.0);
    assert_eq!(f(diagonal[0].t1), 1.0);
    assert!(Aabb::hit(&diagonal, s(0.001), s(f64::INFINITY)));
    assert!(!Aabb::hit(&diagonal, s(0.001), s(1.0)));
}

#[test]
fn slab_test_keeps_window_on_nan() {
    // a ray in a face plane with no motion on that axis: 0 * infinity is NaN,
    // and a NaN bound leaves the window as it was
    let min = [0.0, 0.0, 0.0];
    let max = [1.0, 1.0, 1.0];
    let grazing = slabs(min, max, [0.0, 0.5, -5.0], [0.0, 0.0, 1.0]);
    assert!(f(grazing[0].t0).is_nan());
    assert!(Aabb::hit(&grazing, s(0.001), s(f64::INFINITY)));
}

#[test]
fn surrounding_box_holds_both() {
    let a = Aabb::new(point(0.0, 0.0, 0.0), point(1.0, 1.0, 1.0));
    let b = Aabb::new(point(-2.0, 0.5, 0.25), point(0.5, 3.0, 0.75));
    let u = Aabb::surrounding_box(a, b);
    assert_eq!(u.min(), point(-2.0, 0.0, 0.0));
    assert_eq!(u.max(), point(1.0, 3.0, 1.0));
    assert_eq!(Aabb::surrounding_box(b, a), u);
    assert_eq!(Aabb::surrounding_box(a, a), a);
    for corner in [a.min(), a.max(), b.min(), b.max()] {
        for axis in 0..3 {
            assert!(u.min().index(axis).le(corner.index(axis)));
            assert!(corner.index(axis).le(u.max().index(axis)));
        }
    }
}

#[test]
fn abs_and_clamp_agree_with_the_numbers() {
    for a in samples() {
        let m = f(s(a).abs());
        assert_eq!(m.to_bits(), a.abs().to_bits(), "abs({})", a);
        let c = f(s(a).clamp(s(0.0), s(1.0)));
        if a.is_nan() {
            assert!(c.is_nan());
        } else {
            assert!(c == a.clamp(0.0, 1.0), "clamp({}) = {}", a, c);
        }
        let d = f(s(a).clamp(s(-2.5), s(-2.5)));
        assert!(a.is_nan() || d == -2.5);
    }
    assert_eq!(s(0.25).clamp(s(0.0), s(1.0)), s(0.25));
    assert_eq!(s(7.0).clamp(s(0.0), s(1.0)), s(1.0));
    assert_eq!(s(-7.0).clamp(s(0.0), s(1.0)), s(0.0));
    assert_eq!(s(-3.0).abs(), s(3.0));
    assert_eq!(s(-0.0).abs(), s(0.0));
}

#[test]
fn negation_changes_the_sign() {
    for a in samples() {
        assert_eq!(s(a).neg().to_bits(), (-a).to_bits(), "-({})", a);
        assert_eq!(s(a).neg().neg(), s(a));
    }
    assert_eq!(point(1.0, -2.0, 0.0).neg(), point(-1.0, 2.0, -0.0));
}

#[test]
fn normal_is_turned_against_the_ray() {
    let mut rec = HitRecord {
        p: point(1.0, 2.0, 3.0),
        normal: Vec3::zero(),
        t: s(4.0),
        u: s(0.25),
        v: s(0.75),
        front_face: false,
    };
    let outward = point(0.0, 1.0, -0.5);
    rec.set_face_normal(s(-0.3), outward);
    assert!(rec.front_face);
    assert_eq!(rec.normal, outward);
    rec.set_face_normal(s(0.3), outward);
    assert!(!rec.front_face);
    assert_eq!(rec.normal, point(-0.0, -1.0, 0.5));
    rec.set_face_normal(s(0.0), outward);
    assert!(!rec.front_face);
    rec.set_face_normal(s(-0.0), outward);
    assert!(!rec.front_face);
    rec.set_face_normal(s(f64::NAN), outward);
    assert!(!rec.front_face);
    assert_eq!(rec.p, point(1.0, 2.0, 3.0));
    assert_eq!(f(rec.t), 4.0);
    assert!(rec.is_within(s(0.001), s(f64::INFINITY)));
    assert!(rec.is_within(s(4.0), s(4.0)));
    assert!(!rec.is_within(s(0.001), s(3.9)));
    assert!(!rec.is_within(s(4.1), s(10.0)));
}

#[test]
fn roots_are_picked_within_the_window() {
    let pick = |near: f64, far: f64, lo: f64, hi: f64| nearest_root(s(near), s(far), s(lo), s(hi)).map(f);
    assert_eq!(pick(1.0, 3.0, 0.001, f64::INFINITY), Some(1.0));
    assert_eq!(pick(-1.0, 3.0, 0.001, f64::INFINITY), Some(3.0));
    assert_eq!(pick(-3.0, -1.0, 0.001, f64::INFINITY), None);
    assert_eq!(pick(1.0, 3.0, 0.001, 0.5), None);
    assert_eq!(pick(1.0, 3.0, 0.001, 1.0), Some(1.0));
    assert_eq!(pick(1.0, 3.0, 1.0, 2.0), Some(1.0));
    assert_eq!(pick(1.0, 3.0, 1.5, 2.0), None);
    assert_eq!(pick(1.0, 3.0, 1.5, 3.0), Some(3.0));
    assert_eq!(pick(0.0005, 0.0005, 0.001, 10.0), None);
    assert!(pick(f64::NAN, 3.0, 0.001, 10.0).unwrap().is_nan());
    assert!(misses_window(s(0.0), s(0.001), s(10.0)));
    assert!(misses_window(s(11.0), s(0.001), s(10.0)));
    assert!(!misses_window(s(10.0), s(0.001), s(10.0)));
    assert!(!misses_window(s(0.001), s(0.001), s(10.0)));
    assert!(!misses_window(s(f64::NAN), s(0.001), s(10.0)));
}
