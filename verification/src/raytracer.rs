//! Scene rendering: per-pixel ray generation, closest-hit search over the
//! scene's spheres, and the diffuse-plus-specular shading of a hit.
//!
//! Scale conventions follow `geometry`: positions in whole units,
//! directions and normals `UNIT`-scaled, the light's intensity `UNIT`-scaled
//! (one is `UNIT`, larger values are allowed and not clamped).

use vstd::prelude::*;
use vstd::arithmetic::div_mod::lemma_div_pos_is_pos;

use crate::framebuffer::Display;
use crate::framebuffer::Pixel;
use crate::framebuffer::pixel_at;
use crate::geometry::Sphere;
use crate::geometry::Vec3;
use crate::geometry::POS_MAX;
use crate::geometry::UNIT;
use crate::geometry::VMAX;
use crate::geometry::add_spec;
use crate::geometry::bounded;
use crate::geometry::dir_ok;
use crate::geometry::div_trunc;
use crate::geometry::div_trunc_i64;
use crate::geometry::dot_spec;
use crate::geometry::isect_hit;
use crate::geometry::isect_normal;
use crate::geometry::isect_range;
use crate::geometry::lemma_div_trunc_bound;
use crate::geometry::lemma_dot_bound;
use crate::geometry::lemma_isect_result_bounds;
use crate::geometry::lemma_mul_bound;
use crate::geometry::lemma_norm2_bounds;
use crate::geometry::norm2_spec;
use crate::geometry::normalize;
use crate::geometry::normalize_spec;
use crate::geometry::sub_spec;

verus! {

/// Fixed-point one squared: the scale of a dot product of two unit-scale
/// vectors.
pub const UNIT2: i64 = 0x1_0000_0000;

/// Upper bound accepted for the light's intensity, `UNIT`-scaled (sixteen
/// in real terms; one is full nominal brightness).
pub const INTENSITY_MAX: i64 = 0x10_0000;

/// Upper bound accepted for `tan(fov / 2)`, `UNIT`-scaled (sixteen in real
/// terms, far past any usable field of view).
pub const TAN_MAX: i64 = 0x10_0000;

/// The fixed "ivory" base color of every sphere, `UNIT`-scaled: 0.7, 0.9,
/// 0.7.
pub const IVORY_X: i64 = 45875;

pub const IVORY_Y: i64 = 58982;

pub const IVORY_Z: i64 = 45875;

/// Exponent of the specular highlight.
pub const SPEC_POW: u32 = 50;

/// The packed pixel written where no sphere is hit.
pub const BACKGROUND: u32 = 0x10101000;

/// The single point light of a scene.
#[derive(Clone, Copy, PartialEq, Eq, Structural, Debug)]
pub struct Light {
    pub location: Vec3,
    pub intensity: i64,
}

impl Light {
    /// Location inside the scene window, intensity non-negative and small
    /// enough for the shading arithmetic.
    pub open spec fn wf(self) -> bool {
        &&& bounded(self.location, POS_MAX as int)
        &&& 0 <= self.intensity <= INTENSITY_MAX
    }

    /// Displace the light by `new_loc` (the offset is added to the current
    /// location).
    pub fn update_loc(&mut self, new_loc: Vec3)
        requires
            bounded(old(self).location, 0x3FFF_FFFF_FFFF_FFFF),
            bounded(new_loc, 0x3FFF_FFFF_FFFF_FFFF),
        ensures
            final(self).location == add_spec(old(self).location, new_loc),
            final(self).intensity == old(self).intensity,
    {
        self.location = self.location.add(new_loc);
    }
}

/// Two displacements of the light land on the same location in either
/// order, and a zero displacement changes nothing: the component-wise
/// addition behind `update_loc` is commutative. The bounds only keep the
/// sums inside `i64`.
pub proof fn lemma_update_order_irrelevant(loc: Vec3, a: Vec3, b: Vec3)
    requires
        bounded(loc, 0x1FFF_FFFF_FFFF_FFFF),
        bounded(a, 0x1FFF_FFFF_FFFF_FFFF),
        bounded(b, 0x1FFF_FFFF_FFFF_FFFF),
    ensures
        add_spec(add_spec(loc, a), b) == add_spec(add_spec(loc, b), a),
        add_spec(loc, (Vec3 { x: 0, y: 0, z: 0 })) == loc,
{
}

/// The point `range` units along `axis` from the camera: where shading
/// places the surface that was hit.
pub open spec fn hit_point_spec(camera_pos: Vec3, axis: Vec3, range: int) -> Vec3 {
    add_spec(
        camera_pos,
        Vec3 {
            x: div_trunc(axis.x * range, UNIT as int) as i64,
            y: div_trunc(axis.y * range, UNIT as int) as i64,
            z: div_trunc(axis.z * range, UNIT as int) as i64,
        },
    )
}

/// The mirror reflection of the light vector about the normal,
/// `2 (l . n) n - l`, `UNIT`-scaled.
pub open spec fn reflect_spec(theta: int, light_vec: Vec3, normal: Vec3) -> Vec3 {
    Vec3 {
        x: (div_trunc(2 * theta * normal.x, UNIT2 as int) - light_vec.x) as i64,
        y: (div_trunc(2 * theta * normal.y, UNIT2 as int) - light_vec.y) as i64,
        z: (div_trunc(2 * theta * normal.z, UNIT2 as int) - light_vec.z) as i64,
    }
}

/// The diffuse product before rescaling: intensity times the cosine of the
/// angle between light vector and normal. Linear in the intensity.
pub open spec fn diffuse_num(intensity: int, theta: int) -> int {
    intensity * (-theta)
}

/// The diffuse factor, `UNIT`-scaled.
pub open spec fn diffuse_spec(intensity: int, theta: int) -> int {
    diffuse_num(intensity, theta) / (UNIT2 as int)
}

/// Fixed-point power: `base` is `UNIT`-scaled, the result is the `k`-th
/// power, `UNIT`-scaled, truncating after each multiplication.
pub open spec fn pow_frac(base: int, k: nat) -> int
    decreases k,
{
    if k == 0 {
        UNIT as int
    } else {
        pow_frac(base, (k - 1) as nat) * base / (UNIT as int)
    }
}

/// The specular cosine: `max(0, r . d)` brought to `UNIT` scale and capped
/// at one, so that repeated squaring stays in range.
pub open spec fn spec_base(rd: int) -> int {
    if rd <= 0 {
        0
    } else if rd / (UNIT as int) > UNIT {
        UNIT as int
    } else {
        rd / (UNIT as int)
    }
}

/// The specular product before rescaling: the powered cosine times the
/// intensity. Linear in the intensity.
pub open spec fn specular_num(powv: int, intensity: int) -> int {
    powv * intensity
}

/// The specular term, `UNIT`-scaled.
pub open spec fn specular_spec(rd: int, intensity: int) -> int {
    specular_num(pow_frac(spec_base(rd), SPEC_POW as nat), intensity) / (UNIT as int)
}

/// One color channel, `UNIT`-scaled: base color times diffuse times 0.8
/// plus white times specular times 0.3, each stage truncated.
pub open spec fn channel_spec(base_c: int, intensity: int, theta: int, rd: int) -> int {
    (base_c * diffuse_spec(intensity, theta)) / (UNIT as int) * 4 / 5
        + specular_spec(rd, intensity) * 3 / 10
}

/// A channel brought to one byte: scaled by 254, truncated, reduced mod
/// 256 as the pixel packing keeps only the low byte.
pub open spec fn channel_byte(c: int) -> u32 {
    (((c * 254) / (UNIT as int)) % 256) as u32
}

/// Channels packed as the framebuffer expects: x in bits 24..32, y in
/// 16..24, z in 8..16.
pub open spec fn pack_color(cx: int, cy: int, cz: int) -> u32 {
    (channel_byte(cx) << 24) | (channel_byte(cy) << 16) | (channel_byte(cz) << 8)
}

/// The color of a hit at `range` along the ray: black where the surface
/// faces away from the light (or the light sits exactly on the hit point),
/// otherwise the packed diffuse-plus-specular color.
pub open spec fn shade_spec(
    camera_pos: Vec3,
    axis: Vec3,
    light: Light,
    dir: Vec3,
    range: int,
    normal: Vec3,
) -> u32 {
    let lraw = sub_spec(hit_point_spec(camera_pos, axis, range), light.location);
    if norm2_spec(lraw) < 1 {
        0u32
    } else {
        let lv = normalize_spec(lraw);
        let theta = dot_spec(lv, normal);
        if theta > 0 {
            0u32
        } else {
            let rd = dot_spec(reflect_spec(theta, lv, normal), dir);
            pack_color(
                channel_spec(IVORY_X as int, light.intensity as int, theta, rd),
                channel_spec(IVORY_Y as int, light.intensity as int, theta, rd),
                channel_spec(IVORY_Z as int, light.intensity as int, theta, rd),
            )
        }
    }
}

/// Fixed-point power of a capped base, by repeated multiplication.
fn pow_frac_exec(base: i64) -> (r: i64)
    requires
        0 <= base <= UNIT,
    ensures
        r as int == pow_frac(base as int, SPEC_POW as nat),
        0 <= r <= UNIT,
{
    let mut acc: i64 = UNIT;
    let mut k: u32 = 0;
    while k < SPEC_POW
        invariant
            0 <= base <= UNIT,
            k <= SPEC_POW,
            0 <= acc <= UNIT,
            acc as int == pow_frac(base as int, k as nat),
        decreases SPEC_POW - k,
    {
        proof {
            lemma_mul_bound(acc as int, base as int, UNIT as int, UNIT as int);
            assert(acc * base >= 0) by (nonlinear_arith)
                requires
                    acc >= 0,
                    base >= 0,
            ;
            lemma_div_trunc_bound(acc * base, UNIT as int, 0x1_0000_0000, UNIT as int);
            lemma_div_pos_is_pos(acc * base, UNIT as int);
        }
        acc = div_trunc_i64(acc * base, UNIT);
        k = k + 1;
    }
    acc
}

/// Shade a hit `range` units along the ray: the diffuse-plus-specular
/// color, or black where the surface faces away from the light. Where the
/// light sits exactly on the whole-unit hit point the light vector is
/// undefined; the chosen policy, stated as its own clause, is to shade
/// that pixel black rather than invent a direction.
pub fn shade_hit(
    camera_pos: Vec3,
    axis: Vec3,
    light: &Light,
    dir: Vec3,
    range: i64,
    normal: Vec3,
) -> (c: u32)
    requires
        bounded(camera_pos, POS_MAX as int),
        bounded(axis, 2 * (UNIT as int)),
        bounded(dir, 2 * (UNIT as int)),
        bounded(normal, UNIT as int),
        -0x800_0000 <= range <= 0x800_0000,
        light.wf(),
    ensures
        c == shade_spec(camera_pos, axis, *light, dir, range as int, normal),
        norm2_spec(sub_spec(hit_point_spec(camera_pos, axis, range as int), light.location))
            == 0 ==> c == 0,
{
    proof {
        lemma_mul_bound(axis.x as int, range as int, 0x20000, 0x800_0000);
        lemma_mul_bound(axis.y as int, range as int, 0x20000, 0x800_0000);
        lemma_mul_bound(axis.z as int, range as int, 0x20000, 0x800_0000);
        lemma_div_trunc_bound(axis.x * range, UNIT as int, 0x1000_0000_0000, UNIT as int);
        lemma_div_trunc_bound(axis.y * range, UNIT as int, 0x1000_0000_0000, UNIT as int);
        lemma_div_trunc_bound(axis.z * range, UNIT as int, 0x1000_0000_0000, UNIT as int);
    }
    let pt = Vec3 {
        x: camera_pos.x + div_trunc_i64(axis.x * range, UNIT),
        y: camera_pos.y + div_trunc_i64(axis.y * range, UNIT),
        z: camera_pos.z + div_trunc_i64(axis.z * range, UNIT),
    };
    let lraw = pt.sub(light.location);
    proof {
        lemma_norm2_bounds(lraw);
    }
    let n2l = lraw.dot(lraw);
    if n2l < 1 {
        return 0u32;
    }
    let lv = normalize(lraw);
    let theta = lv.dot(normal);
    proof {
        lemma_dot_bound(lv, normal, UNIT as int, UNIT as int);
    }
    if theta > 0 {
        return 0u32;
    }
    // diffuse factor
    let negt = -theta;
    proof {
        lemma_mul_bound(light.intensity as int, negt as int, INTENSITY_MAX as int,
            0x3_0000_0000);
        assert(light.intensity * negt >= 0) by (nonlinear_arith)
            requires
                light.intensity >= 0,
                negt >= 0,
        ;
        lemma_div_trunc_bound(light.intensity * negt, UNIT2 as int, 0x30_0000_0000_0000,
            UNIT2 as int);
        lemma_div_pos_is_pos(light.intensity * negt, UNIT2 as int);
    }
    let local = div_trunc_i64(light.intensity * negt, UNIT2);
    assert(local as int == diffuse_spec(light.intensity as int, theta as int));
    // mirror reflection of the light vector
    proof {
        lemma_mul_bound(2 * theta, normal.x as int, 0x6_0000_0000, UNIT as int);
        lemma_mul_bound(2 * theta, normal.y as int, 0x6_0000_0000, UNIT as int);
        lemma_mul_bound(2 * theta, normal.z as int, 0x6_0000_0000, UNIT as int);
        lemma_div_trunc_bound(2 * theta * normal.x, UNIT2 as int, 0x6_0000_0000_0000,
            UNIT2 as int);
        lemma_div_trunc_bound(2 * theta * normal.y, UNIT2 as int, 0x6_0000_0000_0000,
            UNIT2 as int);
        lemma_div_trunc_bound(2 * theta * normal.z, UNIT2 as int, 0x6_0000_0000_0000,
            UNIT2 as int);
    }
    let refl = Vec3 {
        x: div_trunc_i64(2 * theta * normal.x, UNIT2) - lv.x,
        y: div_trunc_i64(2 * theta * normal.y, UNIT2) - lv.y,
        z: div_trunc_i64(2 * theta * normal.z, UNIT2) - lv.z,
    };
    proof {
        lemma_dot_bound(refl, dir, 0x7_0000, 0x20000);
    }
    let rd = refl.dot(dir);
    // specular base, capped at one
    let base: i64 = if rd <= 0 {
        0
    } else {
        proof {
            lemma_div_pos_is_pos(rd as int, UNIT as int);
            lemma_div_trunc_bound(rd as int, UNIT as int, 0x2A_0000_0000, UNIT as int);
        }
        let q = div_trunc_i64(rd, UNIT);
        if q > UNIT {
            UNIT
        } else {
            q
        }
    };
    assert(base as int == spec_base(rd as int));
    let powv = pow_frac_exec(base);
    proof {
        lemma_mul_bound(powv as int, light.intensity as int, UNIT as int, INTENSITY_MAX as int);
        assert(powv * light.intensity >= 0) by (nonlinear_arith)
            requires
                powv >= 0,
                light.intensity >= 0,
        ;
        lemma_div_pos_is_pos(powv * light.intensity, UNIT as int);
        lemma_div_trunc_bound(powv * light.intensity, UNIT as int, 0x1000_0000_0000,
            UNIT as int);
    }
    let spec_term = div_trunc_i64(powv * light.intensity, UNIT);
    assert(spec_term as int == specular_spec(rd as int, light.intensity as int));
    let cx = shade_channel(IVORY_X, local, spec_term);
    let cy = shade_channel(IVORY_Y, local, spec_term);
    let cz = shade_channel(IVORY_Z, local, spec_term);
    let bx = pack_channel(cx);
    let by = pack_channel(cy);
    let bz = pack_channel(cz);
    (bx << 24) | (by << 16) | (bz << 8)
}

/// One channel of the final color from the diffuse factor and specular
/// term; never negative.
fn shade_channel(base_c: i64, local: i64, spec_term: i64) -> (c: i64)
    requires
        0 <= base_c <= UNIT,
        0 <= local <= 0x30_0000,
        0 <= spec_term <= 0x100_0000,
    ensures
        c as int == (base_c as int * local as int) / (UNIT as int) * 4 / 5
            + spec_term as int * 3 / 10,
        0 <= c <= 0x2000_0000,
{
    proof {
        lemma_mul_bound(base_c as int, local as int, UNIT as int, 0x30_0000);
        assert(base_c * local >= 0) by (nonlinear_arith)
            requires
                base_c >= 0,
                local >= 0,
        ;
        lemma_div_pos_is_pos(base_c * local, UNIT as int);
        lemma_div_trunc_bound(base_c * local, UNIT as int, 0x30_0000_0000_0000, UNIT as int);
    }
    let d1 = div_trunc_i64(base_c * local, UNIT);
    proof {
        lemma_div_pos_is_pos(d1 as int * 4, 5);
        lemma_div_trunc_bound(d1 as int * 4, 5, 0xC0_0000_0000, 5);
        lemma_div_pos_is_pos(spec_term as int * 3, 10);
        lemma_div_trunc_bound(spec_term as int * 3, 10, 0x300_0000_0000, 10);
    }
    let d2 = div_trunc_i64(d1 * 4, 5);
    let sc = div_trunc_i64(spec_term * 3, 10);
    d2 + sc
}

/// Bring a non-negative channel to its stored byte: scale by 254, truncate,
/// keep the low byte.
fn pack_channel(c: i64) -> (b: u32)
    requires
        0 <= c <= 0x2000_0000,
    ensures
        b == channel_byte(c as int),
        b < 256,
    {
    proof {
        lemma_div_pos_is_pos(c as int * 254, UNIT as int);
    }
    let scaled = div_trunc_i64(c * 254, UNIT);
    ((scaled as u64) % 256) as u32
}

/// Shading with the surface facing away from the light is pure black, no
/// matter the intensity.
pub proof fn lemma_backface_is_black(
    camera_pos: Vec3,
    axis: Vec3,
    light: Light,
    dir: Vec3,
    range: int,
    normal: Vec3,
)
    requires
        ({
            let lraw = sub_spec(hit_point_spec(camera_pos, axis, range), light.location);
            norm2_spec(lraw) >= 1 && dot_spec(normalize_spec(lraw), normal) > 0
        }),
    ensures
        shade_spec(camera_pos, axis, light, dir, range, normal) == 0,
{
}

/// Integer division scales with its numerator up to truncation: for a
/// non-negative numerator, multiplying it by `k` multiplies the quotient
/// by `k`, short of at most `k - 1`.
pub proof fn lemma_div_scales(a: int, k: int, d: int)
    requires
        0 <= a,
        1 <= k,
        1 <= d,
    ensures
        k * (a / d) <= (k * a) / d,
        (k * a) / d <= k * (a / d) + (k - 1),
{
    let q = a / d;
    let r = a % d;
    vstd::arithmetic::div_mod::lemma_fundamental_div_mod(a, d);
    assert(k * a == k * r + (k * q) * d) by (nonlinear_arith)
        requires
            a == d * q + r,
    ;
    vstd::arithmetic::div_mod::lemma_hoist_over_denominator(k * r, k * q, d as nat);
    assert((k * a) / d == (k * r) / d + k * q);
    assert(0 <= k * r && k * r < k * d) by (nonlinear_arith)
        requires
            0 <= r < d,
            1 <= k,
    ;
    lemma_div_pos_is_pos(k * r, d);
    assert(d * k == k * d) by (nonlinear_arith);
    vstd::arithmetic::div_mod::lemma_multiply_divide_lt(k * r, d, k);
}

/// Bounds of the fixed-point power: a base between zero and one stays
/// between zero and one under every power.
pub proof fn lemma_pow_frac_bounds(base: int, k: nat)
    requires
        0 <= base <= UNIT,
    ensures
        0 <= pow_frac(base, k) <= UNIT,
    decreases k,
{
    if k > 0 {
        lemma_pow_frac_bounds(base, (k - 1) as nat);
        let p = pow_frac(base, (k - 1) as nat);
        assert(0 <= p * base <= (UNIT as int) * (UNIT as int)) by (nonlinear_arith)
            requires
                0 <= p <= UNIT,
                0 <= base <= UNIT,
        ;
        lemma_div_pos_is_pos(p * base, UNIT as int);
        lemma_div_trunc_bound(p * base, UNIT as int, 0x1_0000_0000, UNIT as int);
    }
}

/// Scaling the light's intensity by `k` scales the `UNIT`-scaled diffuse
/// factor by `k`, up to the truncation slack of at most `k - 1` in the
/// last place; the pre-truncation product `diffuse_num` scales exactly.
pub proof fn lemma_intensity_scales_diffuse(intensity: int, k: int, theta: int)
    requires
        0 <= intensity,
        theta <= 0,
        1 <= k,
    ensures
        diffuse_num(k * intensity, theta) == k * diffuse_num(intensity, theta),
        k * diffuse_spec(intensity, theta) <= diffuse_spec(k * intensity, theta),
        diffuse_spec(k * intensity, theta) <= k * diffuse_spec(intensity, theta) + (k - 1),
{
    assert((k * intensity) * (-theta) == k * (intensity * (-theta))
        && 0 <= intensity * (-theta)) by (nonlinear_arith)
        requires
            0 <= intensity,
            theta <= 0,
    ;
    lemma_div_scales(diffuse_num(intensity, theta), k, UNIT2 as int);
}

/// Scaling the light's intensity by `k` scales the `UNIT`-scaled specular
/// term by `k`, up to the truncation slack of at most `k - 1` in the last
/// place; the pre-truncation product `specular_num` scales exactly.
pub proof fn lemma_intensity_scales_specular(rd: int, intensity: int, k: int)
    requires
        0 <= intensity,
        1 <= k,
    ensures
        specular_num(pow_frac(spec_base(rd), SPEC_POW as nat), k * intensity) == k
            * specular_num(pow_frac(spec_base(rd), SPEC_POW as nat), intensity),
        k * specular_spec(rd, intensity) <= specular_spec(rd, k * intensity),
        specular_spec(rd, k * intensity) <= k * specular_spec(rd, intensity) + (k - 1),
{
    if rd > 0 {
        lemma_div_pos_is_pos(rd, UNIT as int);
    }
    let p = pow_frac(spec_base(rd), SPEC_POW as nat);
    lemma_pow_frac_bounds(spec_base(rd), SPEC_POW as nat);
    assert(p * (k * intensity) == k * (p * intensity) && 0 <= p * intensity)
        by (nonlinear_arith)
        requires
            0 <= intensity,
            0 <= p,
    ;
    lemma_div_scales(specular_num(p, intensity), k, UNIT as int);
}

/// Every sphere of the scene is within the intersection test's window.
pub open spec fn scene_ok(scene: Seq<Sphere>) -> bool {
    forall|i: int| 0 <= i < scene.len() ==> (#[trigger] scene[i]).wf()
}

/// The closest-hit search over the scene, as the rendering loop performs
/// it: the least reported range (ties kept by the earlier sphere) and its
/// surface normal, or no normal when nothing is hit.
pub open spec fn scan_spec(scene: Seq<Sphere>, origin: Vec3, dir: Vec3) -> (int, Option<Vec3>)
    decreases scene.len(),
{
    if scene.len() == 0 {
        (i64::MAX as int, None::<Vec3>)
    } else {
        let prev = scan_spec(scene.drop_last(), origin, dir);
        let s = scene.last();
        if isect_hit(s, origin, dir) && isect_range(s, origin, dir) < prev.0 {
            (isect_range(s, origin, dir), Some(isect_normal(s, origin, dir)))
        } else {
            prev
        }
    }
}

/// What one ray contributes: the shaded color of the closest hit, or
/// nothing when the ray misses every sphere.
pub open spec fn project_spec(
    scene: Seq<Sphere>,
    camera_pos: Vec3,
    camera_vec: Vec3,
    exact: bool,
    light: Light,
    dir: Vec3,
) -> Option<u32> {
    let sc = scan_spec(scene, camera_pos, dir);
    match sc.1 {
        Some(normal) => Some(
            shade_spec(
                camera_pos,
                if exact {
                    dir
                } else {
                    camera_vec
                },
                light,
                dir,
                sc.0,
                normal,
            ),
        ),
        None => None,
    }
}

/// The whole rendering state: the raster surface, the camera, and the
/// scene's one light. `tan_half_fov` holds `tan(fov / 2)`, `UNIT`-scaled.
/// With `exact_hit_point` set, shading places the hit point along the
/// actual per-pixel ray; cleared, it uses the camera's forward vector for
/// every pixel, a coarser mode kept for compatibility with renderers that
/// shade that way.
pub struct RayTracer {
    pub display: Display,
    pub camera_pos: Vec3,
    pub camera_vec: Vec3,
    pub tan_half_fov: i64,
    pub exact_hit_point: bool,
    pub light: Light,
}

impl RayTracer {
    /// Camera and light within the windows the fixed-point arithmetic
    /// accepts.
    pub open spec fn cam_ok(self) -> bool {
        &&& bounded(self.camera_pos, POS_MAX as int)
        &&& bounded(self.camera_vec, UNIT as int)
        &&& 0 <= self.tan_half_fov <= TAN_MAX
        &&& self.light.wf()
    }

    /// `cam_ok` plus a well-formed raster of workable size.
    pub open spec fn wf(self) -> bool {
        &&& self.cam_ok()
        &&& self.display.wf()
        &&& 1 <= self.display.width_px <= 0x8000
        &&& 1 <= self.display.height_px <= 0x8000
    }

    /// Trace one ray against every sphere and shade the closest hit;
    /// `None` when the ray misses the whole scene.
    pub fn project_ray(&self, dir: Vec3, scene: &Vec<Sphere>) -> (res: Option<Pixel>)
        requires
            self.cam_ok(),
            dir_ok(dir),
            scene_ok(scene@),
        ensures
            res == project_spec(
                scene@,
                self.camera_pos,
                self.camera_vec,
                self.exact_hit_point,
                self.light,
                dir,
            ),
    {
        let mut min_range: i64 = i64::MAX;
        let mut normal: Option<Vec3> = None;
        let mut i: usize = 0;
        while i < scene.len()
            invariant
                self.cam_ok(),
                dir_ok(dir),
                scene_ok(scene@),
                i <= scene@.len(),
                (min_range as int, normal) == scan_spec(scene@.take(i as int), self.camera_pos, dir),
                normal matches Some(n) ==> bounded(n, UNIT as int),
                normal is Some ==> -0x800_0000 <= min_range <= 0x800_0000,
            decreases scene@.len() - i,
        {
            let sphere = &scene[i];
            let r = sphere.intersect(self.camera_pos, dir);
            proof {
                lemma_isect_result_bounds(scene@[i as int], self.camera_pos, dir);
                assert(scene@.take(i as int + 1).drop_last() =~= scene@.take(i as int));
                assert(scene@.take(i as int + 1).last() == scene@[i as int]);
            }
            match r {
                Some(dist_normal) => {
                    if dist_normal.0 < min_range {
                        normal = Some(dist_normal.1);
                        min_range = dist_normal.0;
                    }
                },
                None => {},
            }
            i = i + 1;
        }
        proof {
            assert(scene@.take(scene@.len() as int) =~= scene@);
        }
        match normal {
            Some(surface_normal) => {
                let axis = if self.exact_hit_point {
                    dir
                } else {
                    self.camera_vec
                };
                Some(shade_hit(self.camera_pos, axis, &self.light, dir, min_range, surface_normal))
            },
            None => None,
        }
    }

    /// Render the whole frame: for every pixel, build its screen-space
    /// ray, trace it against the scene, and store the shaded color (the
    /// background color where nothing is hit). Camera, light and raster
    /// shape are untouched; presenting the buffer is the caller's step.
    pub fn render_scene(&mut self, scene: &Vec<Sphere>)
        requires
            old(self).wf(),
            scene_ok(scene@),
        ensures
            final(self).wf(),
            final(self).display.same_shape(old(self).display),
            final(self).camera_pos == old(self).camera_pos,
            final(self).camera_vec == old(self).camera_vec,
            final(self).tan_half_fov == old(self).tan_half_fov,
            final(self).exact_hit_point == old(self).exact_hit_point,
            final(self).light == old(self).light,
            forall|a: int, b: int|
                0 <= a < old(self).display.width_px && 0 <= b < old(self).display.height_px
                    ==> pixel_at(final(self).display, a, b) == pixel_value_spec(
                    *old(self),
                    scene@,
                    a,
                    b,
                ),
    {
        let ghost rt0 = *self;
        let w = self.display.width_px;
        let h = self.display.height_px;
        let mut y: u32 = 0;
        while y < h
            invariant
                self.wf(),
                scene_ok(scene@),
                self.display.width_px == w,
                self.display.height_px == h,
                self.display.same_shape(rt0.display),
                self.camera_pos == rt0.camera_pos,
                self.camera_vec == rt0.camera_vec,
                self.tan_half_fov == rt0.tan_half_fov,
                self.exact_hit_point == rt0.exact_hit_point,
                self.light == rt0.light,
                y <= h,
                forall|a: int, b: int|
                    0 <= a < w && 0 <= b < y ==> pixel_at(self.display, a, b) == pixel_value_spec(
                        rt0,
                        scene@,
                        a,
                        b,
                    ),
            decreases h - y,
        {
            let mut x: u32 = 0;
            while x < w
                invariant
                    self.wf(),
                    scene_ok(scene@),
                    self.display.width_px == w,
                    self.display.height_px == h,
                    self.display.same_shape(rt0.display),
                    self.camera_pos == rt0.camera_pos,
                    self.camera_vec == rt0.camera_vec,
                    self.tan_half_fov == rt0.tan_half_fov,
                    self.exact_hit_point == rt0.exact_hit_point,
                    self.light == rt0.light,
                    y < h,
                    x <= w,
                    forall|a: int, b: int|
                        0 <= a < w && 0 <= b < y ==> pixel_at(self.display, a, b)
                            == pixel_value_spec(rt0, scene@, a, b),
                    forall|a: int|
                        0 <= a < x ==> pixel_at(self.display, a, y as int) == pixel_value_spec(
                            rt0,
                            scene@,
                            a,
                            y as int,
                        ),
                decreases w - x,
            {
                let raw = ray_dir(x, y, w, h, self.tan_half_fov);
                let value: u32;
                if raw.x < -VMAX || raw.x > VMAX || raw.y < -VMAX || raw.y > VMAX {
                    value = BACKGROUND;
                } else {
                    proof {
                        lemma_norm2_bounds(raw);
                        assert(raw.z * raw.z == 0x1_0000_0000) by (nonlinear_arith)
                            requires
                                raw.z == -65536,
                        ;
                    }
                    let dir = normalize(raw);
                    proof {
                        lemma_dot_bound(dir, dir, UNIT as int, UNIT as int);
                    }
                    let dd = dir.dot(dir);
                    if 4 * dd >= UNIT2 {
                        let pr = self.project_ray(dir, scene);
                        value = match pr {
                            Some(v) => v,
                            None => BACKGROUND,
                        };
                    } else {
                        value = BACKGROUND;
                    }
                }
                assert(value == pixel_value_spec(rt0, scene@, x as int, y as int));
                self.display.setpx(x as usize, y as usize, value);
                x = x + 1;
            }
            y = y + 1;
        }
    }
}

/// The screen-space ray for pixel `(x, y)`: the image plane sits at depth
/// `-UNIT`, `x` spans `[-1, 1]` widened by the aspect ratio, `y` is
/// flipped so screen-down is negative, both stretched by `tan(fov / 2)`.
/// Not yet normalized.
pub open spec fn ray_dir_raw(x: int, y: int, w: int, h: int, tanh: int) -> Vec3 {
    let ax = div_trunc((2 * x + 1) * UNIT, w) - UNIT;
    let sx = div_trunc(div_trunc(ax * tanh, UNIT as int) * w, h);
    let ay = div_trunc((2 * y + 1) * UNIT, h) - UNIT;
    let sy = -div_trunc(ay * tanh, UNIT as int);
    Vec3 { x: sx as i64, y: sy as i64, z: (-(UNIT as int)) as i64 }
}

/// Compute the screen-space ray for pixel `(x, y)`.
fn ray_dir(x: u32, y: u32, w: u32, h: u32, tanh: i64) -> (raw: Vec3)
    requires
        x < w,
        y < h,
        1 <= w <= 0x8000,
        1 <= h <= 0x8000,
        0 <= tanh <= TAN_MAX,
    ensures
        raw == ray_dir_raw(x as int, y as int, w as int, h as int, tanh as int),
{
    let n1 = (2 * (x as i64) + 1) * UNIT;
    proof {
        lemma_div_trunc_bound(n1 as int, w as int, 0x1_0000_0000, 1);
    }
    let d1 = div_trunc_i64(n1, w as i64);
    let ax = d1 - UNIT;
    proof {
        lemma_mul_bound(ax as int, tanh as int, 0x1_0001_0000, TAN_MAX as int);
        lemma_div_trunc_bound(ax * tanh, UNIT as int, 0x10_0010_0000_0000, UNIT as int);
    }
    let bx = div_trunc_i64(ax * tanh, UNIT);
    proof {
        lemma_mul_bound(bx as int, w as int, 0x10_0010_0000, 0x8000);
        lemma_div_trunc_bound(bx * (w as int), h as int, 0x80_0800_0000_0000, 1);
    }
    let sx = div_trunc_i64(bx * (w as i64), h as i64);
    let n2 = (2 * (y as i64) + 1) * UNIT;
    proof {
        lemma_div_trunc_bound(n2 as int, h as int, 0x1_0000_0000, 1);
    }
    let d2 = div_trunc_i64(n2, h as i64);
    let ay = d2 - UNIT;
    proof {
        lemma_mul_bound(ay as int, tanh as int, 0x1_0001_0000, TAN_MAX as int);
        lemma_div_trunc_bound(ay * tanh, UNIT as int, 0x10_0010_0000_0000, UNIT as int);
    }
    let by = div_trunc_i64(ay * tanh, UNIT);
    Vec3 { x: sx, y: -by, z: -UNIT }
}

/// The color pixel `(x, y)` receives: the traced and shaded ray, the
/// background where the ray misses everything, and the background as well
/// in the degenerate corner where the screen-space ray is too skewed for
/// the fixed-point window.
pub open spec fn pixel_value_spec(rt: RayTracer, scene: Seq<Sphere>, x: int, y: int) -> u32 {
    let raw = ray_dir_raw(
        x,
        y,
        rt.display.width_px as int,
        rt.display.height_px as int,
        rt.tan_half_fov as int,
    );
    if !bounded(raw, VMAX as int) {
        BACKGROUND
    } else {
        let dir = normalize_spec(raw);
        if 4 * dot_spec(dir, dir) >= UNIT2 {
            match project_spec(
                scene,
                rt.camera_pos,
                rt.camera_vec,
                rt.exact_hit_point,
                rt.light,
                dir,
            ) {
                Some(v) => v,
                None => BACKGROUND,
            }
        } else {
            BACKGROUND
        }
    }
}

/// With no spheres in the scene, every pixel shows the background color.
pub proof fn lemma_empty_scene_background(rt: RayTracer, scene: Seq<Sphere>, x: int, y: int)
    requires
        scene.len() == 0,
    ensures
        pixel_value_spec(rt, scene, x, y) == BACKGROUND,
{
    let raw = ray_dir_raw(
        x,
        y,
        rt.display.width_px as int,
        rt.display.height_px as int,
        rt.tan_half_fov as int,
    );
    if bounded(raw, VMAX as int) {
        let dir = normalize_spec(raw);
        if 4 * dot_spec(dir, dir) >= UNIT2 {
            assert(scan_spec(scene, rt.camera_pos, dir).1 is None);
        }
    }
}

} // verus!
