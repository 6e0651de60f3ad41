use rayfb::geometry::isqrt;
use rayfb::geometry::magnitude;
use rayfb::geometry::normalize;
use rayfb::geometry::Sphere;
use rayfb::geometry::Vec3;
use rayfb::geometry::UNIT;

#[test]
fn isqrt_small_values() {
    assert_eq!(isqrt(0), 0);
    assert_eq!(isqrt(1), 1);
    assert_eq!(isqrt(3), 1);
    assert_eq!(isqrt(4), 2);
    assert_eq!(isqrt(15), 3);
    assert_eq!(isqrt(16), 4);
    assert_eq!(isqrt(999_999), 999);
    assert_eq!(isqrt(1_000_000), 1000);
}

#[test]
fn isqrt_large_values() {
    assert_eq!(isqrt(u64::MAX), 0xFFFF_FFFF);
    assert_eq!(isqrt(0xFFFF_FFFF), 0xFFFF);
    let n: u64 = 123_456_789;
    let r = isqrt(n);
    assert!(r * r <= n && n < (r + 1) * (r + 1));
}

#[test]
fn magnitude_of_pythagorean_triple() {
    assert_eq!(magnitude(Vec3 { x: 3, y: 4, z: 0 }), 5);
    assert_eq!(magnitude(Vec3 { x: -300000, y: 400000, z: 0 }), 500000);
    assert_eq!(magnitude(Vec3 { x: 0, y: 0, z: 0 }), 0);
}

// Normalizing any sufficiently long vector yields magnitude UNIT within a
// small fixed-point tolerance.
#[test]
fn normalize_yields_unit_magnitude() {
    let vs = [
        Vec3 { x: 300000, y: 400000, z: 0 },
        Vec3 { x: 123456, y: -654321, z: 999999 },
        Vec3 { x: -1000000, y: -1000000, z: -1000000 },
        Vec3 { x: 0, y: 0, z: -65536 },
        Vec3 { x: 70000, y: 110000, z: -130000 },
    ];
    for v in vs {
        let n = normalize(v);
        let m = magnitude(n);
        assert!(
            (m - UNIT).abs() <= 4,
            "magnitude {} for {:?}",
            m,
            v
        );
    }
}

#[test]
fn vector_ops_are_componentwise() {
    let a = Vec3 { x: 1, y: -2, z: 3 };
    let b = Vec3 { x: 10, y: 20, z: -30 };
    assert_eq!(a.add(b), Vec3 { x: 11, y: 18, z: -27 });
    assert_eq!(a.sub(b), Vec3 { x: -9, y: -22, z: 33 });
    assert_eq!(a.mul(b), Vec3 { x: 10, y: -40, z: -90 });
    assert_eq!(a.scale(-2), Vec3 { x: -2, y: 4, z: -6 });
    assert_eq!(a.dot(b), 1 * 10 + (-2) * 20 + 3 * (-30));
}

// dot is symmetric, add and mul commute, scaling by one is the identity.
#[test]
fn vector_algebra_laws_on_values() {
    let a = Vec3 { x: 12345, y: -678, z: 9012 };
    let b = Vec3 { x: -444, y: 555, z: 666 };
    assert_eq!(a.dot(b), b.dot(a));
    assert_eq!(a.add(b), b.add(a));
    assert_eq!(a.mul(b), b.mul(a));
    assert_eq!(a.scale(1), a);
}

// A ray from the sphere's own center always hits, with range exactly
// minus the radius and a normal of magnitude UNIT within tolerance.
#[test]
fn center_ray_hits_with_unit_normal() {
    let s = Sphere { center: Vec3 { x: 0, y: 0, z: -5000 }, radius: 350 };
    let straight = normalize(Vec3 { x: 0, y: 0, z: -65536 });
    let r = s.intersect(s.center, straight).expect("center ray must hit");
    assert_eq!(r.0, -350);
    assert_eq!(r.1, Vec3 { x: 0, y: 0, z: 65536 });
    let oblique = normalize(Vec3 { x: 30000, y: 40000, z: -50000 });
    let r2 = s.intersect(s.center, oblique).expect("center ray must hit");
    assert_eq!(r2.0, -350);
    let m = magnitude(r2.1);
    assert!((m - UNIT).abs() <= 8, "normal magnitude {}", m);
}

// Even the smallest admitted sphere gets a unit-length normal: the offset
// to the hit point is normalized at sub-unit precision, so a center ray on
// a radius-one sphere no longer collapses to the zero vector.
#[test]
fn tiny_sphere_normal_is_unit() {
    let s = Sphere { center: Vec3 { x: 0, y: 0, z: 0 }, radius: 1 };
    let dir = Vec3 { x: 300, y: 300, z: 65535 };
    let r = s.intersect(s.center, dir).expect("center ray must hit");
    assert_eq!(r.0, -1);
    assert_ne!(r.1, Vec3 { x: 0, y: 0, z: 0 });
    let m = magnitude(r.1);
    assert!((m - UNIT).abs() <= 8, "normal magnitude {}", m);
    assert_eq!(r.1, Vec3 { x: -300, y: -300, z: -65535 });
}

// A ray passing at perpendicular distance greater than the radius misses.
#[test]
fn wide_ray_misses() {
    let s = Sphere { center: Vec3 { x: 0, y: 1000, z: -5000 }, radius: 10 };
    let dir = normalize(Vec3 { x: 0, y: 0, z: -65536 });
    assert!(s.intersect(Vec3 { x: 0, y: 0, z: 0 }, dir).is_none());
}

// A tangent ray, at perpendicular distance exactly the radius, hits.
#[test]
fn tangent_ray_hits() {
    let s = Sphere { center: Vec3 { x: 0, y: 100, z: -5000 }, radius: 100 };
    let dir = normalize(Vec3 { x: 0, y: 0, z: -65536 });
    let r = s.intersect(Vec3 { x: 0, y: 0, z: 0 }, dir);
    assert!(r.is_some());
    // one unit further out, it misses
    let s2 = Sphere { center: Vec3 { x: 0, y: 101, z: -5000 }, radius: 100 };
    assert!(s2.intersect(Vec3 { x: 0, y: 0, z: 0 }, dir).is_none());
}

#[test]
fn update_z_moves_depth_only() {
    let mut s = Sphere { center: Vec3 { x: 7, y: 8, z: 9 }, radius: 3 };
    s.update_z(-4444);
    assert_eq!(s.center, Vec3 { x: 7, y: 8, z: -4444 });
    assert_eq!(s.radius, 3);
}
