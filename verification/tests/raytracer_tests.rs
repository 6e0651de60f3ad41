use rayfb::framebuffer::Display;
use rayfb::geometry::normalize;
use rayfb::geometry::Sphere;
use rayfb::geometry::Vec3;
use rayfb::geometry::UNIT;
use rayfb::raytracer::shade_hit;
use rayfb::raytracer::Light;
use rayfb::raytracer::RayTracer;
use rayfb::raytracer::BACKGROUND;

fn pixel_value(d: &Display, x: usize, y: usize) -> u32 {
    let w = d.width_px as usize;
    let o = x * 4 + y * w * 4;
    ((d.framebuffer[o] as u32) << 24)
        | ((d.framebuffer[o + 1] as u32) << 16)
        | ((d.framebuffer[o + 2] as u32) << 8)
        | (d.framebuffer[o + 3] as u32)
}

fn tracer(width: u32, height: u32) -> RayTracer {
    RayTracer {
        display: Display::new(width, height, 32),
        camera_pos: Vec3 { x: 0, y: 0, z: 0 },
        camera_vec: Vec3 { x: 0, y: 0, z: -UNIT },
        // tan(pi / 6) scaled by UNIT: a field of view of pi / 3
        tan_half_fov: 37837,
        exact_hit_point: true,
        light: Light { location: Vec3 { x: 0, y: 0, z: 0 }, intensity: UNIT },
    }
}

// Rendering an empty scene paints every pixel with the background color.
#[test]
fn empty_scene_is_all_background() {
    let mut rt = tracer(4, 4);
    let scene: Vec<Sphere> = Vec::new();
    rt.render_scene(&scene);
    for x in 0..4 {
        for y in 0..4 {
            assert_eq!(pixel_value(&rt.display, x, y), BACKGROUND);
        }
    }
}

// A surface facing away from the light shades to pure black at any
// intensity.
#[test]
fn backface_shades_black() {
    let camera_pos = Vec3 { x: 0, y: 0, z: 0 };
    let axis = Vec3 { x: 0, y: 0, z: -UNIT };
    let dir = axis;
    let range = 1000;
    // hit point (0, 0, -1000); light behind it at (0, 0, -2000):
    // the light vector is +z, as is the normal, so theta > 0
    let normal = Vec3 { x: 0, y: 0, z: UNIT };
    for intensity in [1, UNIT, 16 * UNIT] {
        let light = Light { location: Vec3 { x: 0, y: 0, z: -2000 }, intensity };
        assert_eq!(shade_hit(camera_pos, axis, &light, dir, range, normal), 0);
    }
}

// A lit surface is not black, and doubling the intensity doubles each
// channel up to the one-step truncation of the byte packing.
#[test]
fn intensity_scales_diffuse_channels() {
    let camera_pos = Vec3 { x: 0, y: 0, z: 0 };
    let axis = Vec3 { x: 0, y: 0, z: -UNIT };
    let dir = axis;
    let range = 5000;
    // hit point (0, 0, -5000); light at (0, 0, -10000) gives the light
    // vector +z; a normal of -z makes theta exactly -UNIT^2 (fully lit)
    // and leaves no specular contribution
    let normal = Vec3 { x: 0, y: 0, z: -UNIT };
    let light1 = Light { location: Vec3 { x: 0, y: 0, z: -10000 }, intensity: 8192 };
    let light2 = Light { location: Vec3 { x: 0, y: 0, z: -10000 }, intensity: 16384 };
    let c1 = shade_hit(camera_pos, axis, &light1, dir, range, normal);
    let c2 = shade_hit(camera_pos, axis, &light2, dir, range, normal);
    assert_ne!(c1, 0);
    for shift in [24, 16, 8] {
        let b1 = (c1 >> shift) & 0xFF;
        let b2 = (c2 >> shift) & 0xFF;
        assert!(
            b2 == 2 * b1 || b2 == 2 * b1 + 1,
            "channel at {} went {} -> {}",
            shift,
            b1,
            b2
        );
    }
}

// End to end: one sphere ahead of the camera. The center pixels see it,
// the corner rays point well outside its angular extent.
#[test]
fn single_sphere_center_hit_corners_background() {
    let mut rt = tracer(64, 64);
    let scene = vec![Sphere { center: Vec3 { x: 0, y: 0, z: -5000 }, radius: 350 }];
    rt.render_scene(&scene);
    for (x, y) in [(31, 31), (32, 32), (31, 32), (32, 31)] {
        assert_ne!(pixel_value(&rt.display, x, y), BACKGROUND, "pixel ({}, {})", x, y);
    }
    for (x, y) in [(0, 0), (63, 0), (0, 63), (63, 63)] {
        assert_eq!(pixel_value(&rt.display, x, y), BACKGROUND, "pixel ({}, {})", x, y);
    }
}

// The nearest of several spheres along the ray decides the pixel.
#[test]
fn nearest_sphere_wins() {
    let mut near = tracer(9, 9);
    let scene_near_first = vec![
        Sphere { center: Vec3 { x: 0, y: 0, z: -2000 }, radius: 350 },
        Sphere { center: Vec3 { x: 0, y: 0, z: -8000 }, radius: 350 },
    ];
    near.render_scene(&scene_near_first);
    let mut far = tracer(9, 9);
    let scene_far_first = vec![
        Sphere { center: Vec3 { x: 0, y: 0, z: -8000 }, radius: 350 },
        Sphere { center: Vec3 { x: 0, y: 0, z: -2000 }, radius: 350 },
    ];
    far.render_scene(&scene_far_first);
    // order in the scene does not change the closest hit
    assert_ne!(pixel_value(&near.display, 4, 4), BACKGROUND);
    assert_eq!(pixel_value(&near.display, 4, 4), pixel_value(&far.display, 4, 4));
}

// The light's location update adds the offset to the current location.
#[test]
fn update_loc_is_additive() {
    let mut light = Light { location: Vec3 { x: 0, y: 0, z: -4000 }, intensity: UNIT };
    light.update_loc(Vec3 { x: 300, y: 500, z: -100 });
    assert_eq!(light.location, Vec3 { x: 300, y: 500, z: -4100 });
    assert_eq!(light.intensity, UNIT);
}

// Two displacements land on the same location in either order, and a zero
// displacement changes nothing.
#[test]
fn update_loc_order_is_irrelevant() {
    let a = Vec3 { x: 300, y: 500, z: -100 };
    let b = Vec3 { x: -40, y: 7, z: 123 };
    let mut one = Light { location: Vec3 { x: 1, y: 2, z: 3 }, intensity: UNIT };
    one.update_loc(a);
    one.update_loc(b);
    let mut two = Light { location: Vec3 { x: 1, y: 2, z: 3 }, intensity: UNIT };
    two.update_loc(b);
    two.update_loc(a);
    assert_eq!(one.location, two.location);
    let before = one.location;
    one.update_loc(Vec3 { x: 0, y: 0, z: 0 });
    assert_eq!(one.location, before);
}

// project_ray reports None for a miss and a packed color for a hit.
#[test]
fn project_ray_hit_and_miss() {
    let rt = tracer(64, 64);
    let ahead = normalize(Vec3 { x: 0, y: 0, z: -UNIT });
    let sideways = normalize(Vec3 { x: UNIT, y: 0, z: 0 });
    let scene = vec![Sphere { center: Vec3 { x: 0, y: 0, z: -5000 }, radius: 350 }];
    assert!(rt.project_ray(ahead, &scene).is_some());
    assert!(rt.project_ray(sideways, &scene).is_none());
}
