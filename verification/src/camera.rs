//! The camera: primary-ray construction with depth of field and
//! motion blur, the recursive ray-color integrator, and the
//! pixel-sampling render loop.

use vstd::prelude::*;

use crate::fixed::{
    abs_int, cos_fx, div_fx, floor_div, fx_clamp, mul_fx, sin_fx, FX_ONE, MAX_WORLD, PI_FX, T_INF,
};
use crate::hittable::{h_wf, HitRecord, Hittable};
use crate::material::{lemma_small_product, DiffuseLight, Material};
use crate::texture::{SolidColor, Texture};
use crate::ray::{wf_ray, Ray};
use crate::rng::RandomSource;
use crate::vector::{
    clamp_vec3, color_to_pixel, in_world_vec, random_unit_disk_vec, random_unit_square_vec,
    sqrt_vec, vec_bounded, Color, Pixel, Vec3,
};

verus! {

/// Lower ray-parameter bound for secondary rays, avoiding immediate
/// re-hits at the origin ("shadow acne").
pub const RAY_EPS: i64 = 16777;

/// Where the camera sits and looks, its lens, and the background.
pub struct CameraSettings {
    pub position: Vec3,
    pub target_position: Vec3,
    pub up_direction: Vec3,
    pub fov: i64,
    pub defocus_angle: i64,
    pub focus_dist: i64,
    pub aspect_ratio: i64,
    pub background_color: Color,
}

/// Output resolution and sampling quality.
#[derive(Clone, Copy, Debug, PartialEq, Eq, Structural)]
pub struct RenderSettings {
    pub image_width: usize,
    pub samples_per_pixel: usize,
    pub max_depth: usize,
}

/// The derived camera state.
pub struct Camera {
    pub image_width: usize,
    pub image_height: usize,
    pub position: Vec3,
    pub samples_per_pixel: usize,
    pub max_depth: usize,
    pub pixel00_location: Vec3,
    pub pixel_delta_u: Vec3,
    pub pixel_delta_v: Vec3,
    pub defocus_angle: i64,
    pub defocus_disk_u: Vec3,
    pub defocus_disk_v: Vec3,
    pub background_color: Color,
}

/// Bounds the sampling loops rely on: a positive bounded resolution,
/// bounded sampling parameters, and camera geometry small enough
/// that every constructed primary ray is well formed.
pub open spec fn cam_wf(c: Camera) -> bool {
    &&& 1 <= c.image_width <= 0x4000
    &&& 1 <= c.image_height <= 0x4000
    &&& 1 <= c.samples_per_pixel <= 0x10_0000
    &&& c.max_depth <= 0x1000
    &&& in_world_vec(c.position)
    &&& in_world_vec(c.pixel00_location)
    &&& small_vec(c.pixel_delta_u)
    &&& small_vec(c.pixel_delta_v)
    &&& small_vec(c.defocus_disk_u)
    &&& small_vec(c.defocus_disk_v)
    &&& in_world_vec(c.background_color)
}

/// Components within a few world units (per-pixel deltas, lens
/// radii).
pub open spec fn small_vec(v: Vec3) -> bool {
    &&& abs_int(v.x as int) <= 16 * FX_ONE
    &&& abs_int(v.y as int) <= 16 * FX_ONE
    &&& abs_int(v.z as int) <= 16 * FX_ONE
}

/// Componentwise clamp into the small-vector range.
pub open spec fn clamp_small_spec(v: Vec3) -> Vec3 {
    Vec3 {
        x: crate::fixed::clamp_spec(v.x as int, -16 * FX_ONE, 16 * FX_ONE) as i64,
        y: crate::fixed::clamp_spec(v.y as int, -16 * FX_ONE, 16 * FX_ONE) as i64,
        z: crate::fixed::clamp_spec(v.z as int, -16 * FX_ONE, 16 * FX_ONE) as i64,
    }
}

/// Componentwise clamp into the world range.
pub open spec fn clamp_world_spec(v: Vec3) -> Vec3 {
    Vec3 {
        x: crate::fixed::clamp_spec(v.x as int, -MAX_WORLD as int, MAX_WORLD as int) as i64,
        y: crate::fixed::clamp_spec(v.y as int, -MAX_WORLD as int, MAX_WORLD as int) as i64,
        z: crate::fixed::clamp_spec(v.z as int, -MAX_WORLD as int, MAX_WORLD as int) as i64,
    }
}

/// Componentwise fixed-point scaling.
pub open spec fn vec_scale_spec(v: Vec3, s: int) -> Vec3 {
    Vec3 {
        x: crate::fixed::fx_mul(v.x as int, s) as i64,
        y: crate::fixed::fx_mul(v.y as int, s) as i64,
        z: crate::fixed::fx_mul(v.z as int, s) as i64,
    }
}

/// Componentwise floor division by a whole count.
pub open spec fn vec_div_spec(v: Vec3, d: int) -> Vec3 {
    Vec3 { x: (v.x as int / d) as i64, y: (v.y as int / d) as i64, z: (v.z as int / d) as i64 }
}

/// Componentwise sum.
pub open spec fn vec_add_spec(a: Vec3, b: Vec3) -> Vec3 {
    Vec3 { x: (a.x + b.x) as i64, y: (a.y + b.y) as i64, z: (a.z + b.z) as i64 }
}

/// Componentwise difference.
pub open spec fn vec_sub_spec(a: Vec3, b: Vec3) -> Vec3 {
    Vec3 { x: (a.x - b.x) as i64, y: (a.y - b.y) as i64, z: (a.z - b.z) as i64 }
}

/// The derived image height: width over aspect ratio, truncated to
/// whole pixels and clamped into the supported resolution range.
pub open spec fn cam_height_spec(cs: CameraSettings, rs: RenderSettings) -> int {
    crate::fixed::clamp_spec(
        crate::fixed::fx_div(rs.image_width as int * FX_ONE, cs.aspect_ratio as int) / (
        FX_ONE as int),
        1,
        0x4000,
    )
}

/// The tangent of an angle in fixed-point radians, over the pinned
/// sine, with the cosine bounded away from zero so the quotient
/// stays representable.
pub open spec fn tan_clamped_spec(radians: int) -> int {
    let s = crate::fixed::sin_fx_spec(radians);
    let c0 = crate::fixed::sin_fx_spec(radians + crate::fixed::HALF_PI_FX);
    let c = if c0 < FX_ONE / 256 {
        FX_ONE as int / 256
    } else {
        c0
    };
    crate::fixed::fx_div(s, c)
}

/// The tangent of half an angle given in degrees: converted to
/// radians first, then halved, as the field-of-view path computes it.
pub open spec fn tan_half_spec(angle: int) -> int {
    tan_clamped_spec((crate::fixed::fx_mul(angle, crate::fixed::PI_FX as int) / 180) / 2)
}

/// The viewport height on the focus plane: twice the half-fov
/// tangent times the focus distance.
pub open spec fn cam_viewport_height_spec(cs: CameraSettings) -> int {
    crate::fixed::fx_mul(2 * tan_half_spec(cs.fov as int), cs.focus_dist as int)
}

/// The viewport width: the height times the realized aspect ratio of
/// the integer resolution, clamped to the representable range.
pub open spec fn cam_viewport_width_spec(cs: CameraSettings, rs: RenderSettings) -> int {
    let aspect_now = crate::fixed::fx_div(
        rs.image_width as int * FX_ONE,
        cam_height_spec(cs, rs) * FX_ONE,
    );
    crate::fixed::clamp_spec(
        crate::fixed::fx_mul(cam_viewport_height_spec(cs), aspect_now),
        -1024 * FX_ONE,
        1024 * FX_ONE,
    )
}

/// The camera basis vector pointing from the target back to the
/// camera; a degenerate look direction falls back to the world z
/// axis.
pub open spec fn cam_w_spec(cs: CameraSettings) -> Vec3 {
    let looking = vec_sub_spec(cs.position, cs.target_position);
    if looking.x == 0 && looking.y == 0 && looking.z == 0 {
        Vec3 { x: 0i64, y: 0i64, z: FX_ONE as i64 }
    } else {
        crate::vector::normalized_spec(looking)
    }
}

/// The camera basis vector pointing right; a degenerate up direction
/// falls back to the world x axis.
pub open spec fn cam_u_spec(cs: CameraSettings) -> Vec3 {
    let ucw = crate::vector::cross_spec(cs.up_direction, cam_w_spec(cs));
    if ucw.x == 0 && ucw.y == 0 && ucw.z == 0 {
        Vec3 { x: FX_ONE as i64, y: 0i64, z: 0i64 }
    } else {
        crate::vector::normalized_spec(ucw)
    }
}

/// The camera basis vector pointing up on the viewport.
pub open spec fn cam_v_spec(cs: CameraSettings) -> Vec3 {
    crate::vector::cross_spec(cam_w_spec(cs), cam_u_spec(cs))
}

/// The viewport-spanning vector along the image rows.
pub open spec fn cam_viewport_u_spec(cs: CameraSettings, rs: RenderSettings) -> Vec3 {
    clamp_small_spec(
        vec_scale_spec(
            cam_u_spec(cs),
            crate::fixed::clamp_spec(cam_viewport_width_spec(cs, rs), 0, 1024 * FX_ONE),
        ),
    )
}

/// The viewport-spanning vector down the image columns.
pub open spec fn cam_viewport_v_spec(cs: CameraSettings, rs: RenderSettings) -> Vec3 {
    let v = cam_v_spec(cs);
    let nv = Vec3 { x: (-v.x) as i64, y: (-v.y) as i64, z: (-v.z) as i64 };
    clamp_small_spec(
        vec_scale_spec(
            nv,
            crate::fixed::clamp_spec(cam_viewport_height_spec(cs), 0, 1024 * FX_ONE),
        ),
    )
}

/// The pixel-to-pixel step along a row.
pub open spec fn cam_pixel_delta_u_spec(cs: CameraSettings, rs: RenderSettings) -> Vec3 {
    clamp_small_spec(vec_div_spec(cam_viewport_u_spec(cs, rs), rs.image_width as int))
}

/// The pixel-to-pixel step down a column.
pub open spec fn cam_pixel_delta_v_spec(cs: CameraSettings, rs: RenderSettings) -> Vec3 {
    clamp_small_spec(vec_div_spec(cam_viewport_v_spec(cs, rs), cam_height_spec(cs, rs)))
}

/// The center of the top-left pixel: the camera position pushed to
/// the focus plane, moved to the viewport's upper-left corner, plus
/// half a pixel step on each axis.
pub open spec fn cam_pixel00_spec(cs: CameraSettings, rs: RenderSettings) -> Vec3 {
    let w_scaled = clamp_small_spec(vec_scale_spec(cam_w_spec(cs), cs.focus_dist as int));
    let half_vu = vec_div_spec(cam_viewport_u_spec(cs, rs), 2);
    let half_vv = vec_div_spec(cam_viewport_v_spec(cs, rs), 2);
    let upper_left = clamp_world_spec(
        vec_sub_spec(vec_sub_spec(vec_sub_spec(cs.position, w_scaled), half_vu), half_vv),
    );
    clamp_world_spec(
        vec_add_spec(
            upper_left,
            vec_div_spec(
                vec_add_spec(cam_pixel_delta_u_spec(cs, rs), cam_pixel_delta_v_spec(cs, rs)),
                2,
            ),
        ),
    )
}

/// The lens-disk radius from the defocus angle and focus distance;
/// the angle is halved in degrees first, as the constructor does.
pub open spec fn cam_defocus_radius_spec(cs: CameraSettings) -> int {
    let half_rad = crate::fixed::fx_mul(
        cs.defocus_angle as int / 2,
        crate::fixed::PI_FX as int,
    ) / 180;
    crate::fixed::clamp_spec(
        crate::fixed::fx_mul(cs.focus_dist as int, tan_clamped_spec(half_rad)),
        0,
        16 * FX_ONE,
    )
}

/// One lens-disk axis.
pub open spec fn cam_defocus_disk_u_spec(cs: CameraSettings) -> Vec3 {
    clamp_small_spec(vec_scale_spec(cam_u_spec(cs), cam_defocus_radius_spec(cs)))
}

/// The other lens-disk axis.
pub open spec fn cam_defocus_disk_v_spec(cs: CameraSettings) -> Vec3 {
    clamp_small_spec(vec_scale_spec(cam_v_spec(cs), cam_defocus_radius_spec(cs)))
}

/// The origin lies on the camera's lens disk: the position offset by
/// the two disk axes with coefficients from the open unit disk.
pub open spec fn on_defocus_disk(c: Camera, a: int, b: int, origin: Vec3) -> bool {
    &&& crate::fixed::abs_int(a) < FX_ONE
    &&& crate::fixed::abs_int(b) < FX_ONE
    &&& crate::fixed::fx_mul(a, a) + crate::fixed::fx_mul(b, b) < FX_ONE
    &&& origin == vec_add_spec(
        vec_add_spec(c.position, vec_scale_spec(c.defocus_disk_u, a)),
        vec_scale_spec(c.defocus_disk_v, b),
    )
}

/// A jitter offset inside the half-open unit square around the pixel
/// center.
pub open spec fn square_jitter(off: Vec3) -> bool {
    &&& -FX_ONE / 2 <= off.x < FX_ONE / 2
    &&& -FX_ONE / 2 <= off.y < FX_ONE / 2
    &&& off.z == 0
}

/// The jittered sample point on the pixel grid for (fixed-point)
/// pixel coordinates `(x, y)`.
pub open spec fn pixel_sample_spec(c: Camera, x: int, y: int, off: Vec3) -> Vec3 {
    clamp_world_spec(
        vec_add_spec(
            vec_add_spec(c.pixel00_location, vec_scale_spec(c.pixel_delta_u, x + off.x)),
            vec_scale_spec(c.pixel_delta_v, y + off.y),
        ),
    )
}

/// The primary-ray direction law: the direction runs from the ray
/// origin to the jittered sample point of pixel `(x, y)`.
pub open spec fn primary_dir(c: Camera, x: int, y: int, off: Vec3, r: Ray) -> bool {
    &&& square_jitter(off)
    &&& r.direction == vec_sub_spec(pixel_sample_spec(c, x, y, off), r.origin)
}

/// One channel of the deterministic quantization tail: the
/// accumulated sum averaged over the sample count, clamped into the
/// world range, gamma-two corrected by the floor square root,
/// clamped below one, and scaled to the 8-bit output range.
pub open spec fn quantize_channel_spec(sum: int, n: int) -> int {
    let avg = crate::fixed::clamp_spec(sum / n, -MAX_WORLD as int, MAX_WORLD as int);
    let g = crate::fixed::floor_sqrt(
        if avg >= 0 {
            avg * FX_ONE
        } else {
            0
        },
    );
    let c = crate::fixed::clamp_spec(g, 0, FX_ONE - 1);
    crate::fixed::clamp_spec((c * 256) / (FX_ONE as int), 0, 0xffff_ffff)
}

/// The quantized pixel of an accumulated color sum.
pub open spec fn quantize_spec(sum: Vec3, n: int) -> Pixel {
    Pixel {
        x: quantize_channel_spec(sum.x as int, n) as u32,
        y: quantize_channel_spec(sum.y as int, n) as u32,
        z: quantize_channel_spec(sum.z as int, n) as u32,
    }
}

/// Every member of a primitive collection carries the same
/// solid-color light material.
pub open spec fn all_solid_lights(s: Seq<crate::hittable::Hittable>, c: Color) -> bool {
    forall|i: int|
        0 <= i < s.len() ==> crate::hittable::prim_material(#[trigger] s[i])
            == Material::DiffuseLight(
            DiffuseLight { texture: Box::new(Texture::Solid(SolidColor { color: c })) },
        )
}

/// The shape of every rendered pixel: the quantization of some
/// accumulated color sum whose magnitude is bounded by the sample
/// count times the per-sample color bound.
pub open spec fn pixel_from_samples(p: Pixel, spp: int) -> bool {
    exists|sum: Vec3|
        {
            &&& abs_int(sum.x as int) <= spp * (8 * MAX_WORLD)
            &&& abs_int(sum.y as int) <= spp * (8 * MAX_WORLD)
            &&& abs_int(sum.z as int) <= spp * (8 * MAX_WORLD)
            &&& p == #[trigger] quantize_spec(sum, spp)
        }
}

fn clamp_small(v: Vec3) -> (r: Vec3)
    ensures
        r == clamp_small_spec(v),
        small_vec(r),
{
    Vec3 {
        x: fx_clamp(v.x, -16 * FX_ONE, 16 * FX_ONE),
        y: fx_clamp(v.y, -16 * FX_ONE, 16 * FX_ONE),
        z: fx_clamp(v.z, -16 * FX_ONE, 16 * FX_ONE),
    }
}

fn clamp_world(v: Vec3) -> (r: Vec3)
    ensures
        r == clamp_world_spec(v),
        in_world_vec(r),
{
    Vec3 {
        x: fx_clamp(v.x, -MAX_WORLD, MAX_WORLD),
        y: fx_clamp(v.y, -MAX_WORLD, MAX_WORLD),
        z: fx_clamp(v.z, -MAX_WORLD, MAX_WORLD),
    }
}

/// The integer image height from the width and aspect ratio.
fn derive_image_height(camera_settings: &CameraSettings, render_settings: &RenderSettings) -> (h:
    usize)
    requires
        FX_ONE / 4 <= camera_settings.aspect_ratio <= 16 * FX_ONE,
        1 <= render_settings.image_width <= 0x4000,
    ensures
        h as int == cam_height_spec(*camera_settings, *render_settings),
        1 <= h <= 0x4000,
{
    let width_fx = (render_settings.image_width as i64) * FX_ONE;
    proof {
        lemma_ratio_bound(width_fx as int, camera_settings.aspect_ratio as int);
    }
    let height_fx = div_fx(width_fx, camera_settings.aspect_ratio);
    let image_height_raw = floor_div(height_fx, FX_ONE);
    if image_height_raw < 1 {
        1
    } else if image_height_raw > 0x4000 {
        0x4000
    } else {
        image_height_raw as usize
    }
}

/// The camera basis: back, right and up vectors, each pinned to its
/// spec and of (at most) unit scale.
fn derive_basis(camera_settings: &CameraSettings) -> (b: (Vec3, Vec3, Vec3))
    requires
        in_world_vec(camera_settings.position),
        in_world_vec(camera_settings.target_position),
        in_world_vec(camera_settings.up_direction),
    ensures
        b.0 == cam_w_spec(*camera_settings),
        b.1 == cam_u_spec(*camera_settings),
        b.2 == cam_v_spec(*camera_settings),
        abs_int(b.0.x as int) <= FX_ONE && abs_int(b.0.y as int) <= FX_ONE && abs_int(
            b.0.z as int,
        ) <= FX_ONE,
        abs_int(b.1.x as int) <= FX_ONE && abs_int(b.1.y as int) <= FX_ONE && abs_int(
            b.1.z as int,
        ) <= FX_ONE,
        abs_int(b.2.x as int) <= 2 * FX_ONE && abs_int(b.2.y as int) <= 2 * FX_ONE && abs_int(
            b.2.z as int,
        ) <= 2 * FX_ONE,
{
    let looking = camera_settings.position.sub(camera_settings.target_position);
    let w = if crate::vector::is_vec_near_zero(&looking) {
        Vec3 { x: 0, y: 0, z: FX_ONE }
    } else {
        looking.normalized()
    };
    let up_cross_w = camera_settings.up_direction.cross(w);
    let u = if crate::vector::is_vec_near_zero(&up_cross_w) {
        Vec3 { x: FX_ONE, y: 0, z: 0 }
    } else {
        proof {
            lemma_cross_small(camera_settings.up_direction, w);
        }
        up_cross_w.normalized()
    };
    let v = w.cross(u);
    proof {
        lemma_unit_cross(w, u);
    }
    (w, u, v)
}

/// The two viewport-spanning vectors on the focus plane.
#[verifier::rlimit(100)]
fn derive_viewports(
    camera_settings: &CameraSettings,
    render_settings: &RenderSettings,
    image_height: usize,
    u: Vec3,
    v: Vec3,
) -> (r: (Vec3, Vec3))
    requires
        0 < camera_settings.fov < 180 * FX_ONE,
        0 < camera_settings.focus_dist <= 64 * FX_ONE,
        1 <= render_settings.image_width <= 0x4000,
        image_height as int == cam_height_spec(*camera_settings, *render_settings),
        1 <= image_height <= 0x4000,
        u == cam_u_spec(*camera_settings),
        v == cam_v_spec(*camera_settings),
        abs_int(u.x as int) <= FX_ONE && abs_int(u.y as int) <= FX_ONE && abs_int(u.z as int)
            <= FX_ONE,
        abs_int(v.x as int) <= 2 * FX_ONE && abs_int(v.y as int) <= 2 * FX_ONE && abs_int(
            v.z as int,
        ) <= 2 * FX_ONE,
    ensures
        r.0 == cam_viewport_u_spec(*camera_settings, *render_settings),
        r.1 == cam_viewport_v_spec(*camera_settings, *render_settings),
        small_vec(r.0),
        small_vec(r.1),
{
    proof {
        lemma_small_product(camera_settings.fov as int, PI_FX as int, 180, 4);
    }
    let theta = floor_div(mul_fx(camera_settings.fov, PI_FX), 180);
    proof {
        vstd::arithmetic::div_mod::lemma_div_pos_is_pos(
            crate::fixed::fx_mul(camera_settings.fov as int, PI_FX as int),
            180,
        );
        vstd::arithmetic::div_mod::lemma_div_is_ordered(
            crate::fixed::fx_mul(camera_settings.fov as int, PI_FX as int),
            180 * 4 * FX_ONE,
            180,
        );
    }
    let half_theta = floor_div(theta, 2);
    proof {
        vstd::arithmetic::div_mod::lemma_div_pos_is_pos(theta as int, 2);
        vstd::arithmetic::div_mod::lemma_div_is_ordered(theta as int, 4 * FX_ONE, 2);
    }
    let sin_h = sin_fx(half_theta);
    let cos_h = cos_fx(half_theta);
    let cos_h = if cos_h < FX_ONE / 256 {
        FX_ONE / 256
    } else {
        cos_h
    };
    proof {
        lemma_tan_bound(sin_h as int, cos_h as int);
    }
    let h = div_fx(sin_h, cos_h);
    proof {
        assert(h as int == tan_half_spec(camera_settings.fov as int));
        lemma_small_product(2 * h as int, camera_settings.focus_dist as int, 512, 64);
    }
    let viewport_height = mul_fx(2 * h, camera_settings.focus_dist);
    proof {
        assert(viewport_height as int == cam_viewport_height_spec(*camera_settings));
    }
    let width_fx = (render_settings.image_width as i64) * FX_ONE;
    proof {
        lemma_ratio_small(
            viewport_height as int,
            width_fx as int,
            (image_height as i64) as int,
        );
    }
    let aspect_now = div_fx(width_fx, (image_height as i64) * FX_ONE);
    proof {
        lemma_small_product(viewport_height as int, aspect_now as int, 0x8_0000, 0x8_0000);
    }
    let viewport_width = fx_clamp(
        mul_fx(viewport_height, aspect_now),
        -1024 * FX_ONE,
        1024 * FX_ONE,
    );
    proof {
        assert(viewport_width as int == cam_viewport_width_spec(
            *camera_settings,
            *render_settings,
        ));
    }
    proof {
        lemma_small_product(u.x as int, crate::fixed::clamp_spec(viewport_width as int, 0, 1024 * FX_ONE), 1, 1024);
        lemma_small_product(u.y as int, crate::fixed::clamp_spec(viewport_width as int, 0, 1024 * FX_ONE), 1, 1024);
        lemma_small_product(u.z as int, crate::fixed::clamp_spec(viewport_width as int, 0, 1024 * FX_ONE), 1, 1024);
    }
    let viewport_u = clamp_small(
        Vec3 {
            x: mul_fx(u.x, fx_clamp(viewport_width, 0, 1024 * FX_ONE)),
            y: mul_fx(u.y, fx_clamp(viewport_width, 0, 1024 * FX_ONE)),
            z: mul_fx(u.z, fx_clamp(viewport_width, 0, 1024 * FX_ONE)),
        },
    );
    let neg_v = v.neg();
    proof {
        lemma_small_product(neg_v.x as int, crate::fixed::clamp_spec(viewport_height as int, 0, 1024 * FX_ONE), 2, 1024);
        lemma_small_product(neg_v.y as int, crate::fixed::clamp_spec(viewport_height as int, 0, 1024 * FX_ONE), 2, 1024);
        lemma_small_product(neg_v.z as int, crate::fixed::clamp_spec(viewport_height as int, 0, 1024 * FX_ONE), 2, 1024);
    }
    let viewport_v = clamp_small(
        Vec3 {
            x: mul_fx(neg_v.x, fx_clamp(viewport_height, 0, 1024 * FX_ONE)),
            y: mul_fx(neg_v.y, fx_clamp(viewport_height, 0, 1024 * FX_ONE)),
            z: mul_fx(neg_v.z, fx_clamp(viewport_height, 0, 1024 * FX_ONE)),
        },
    );
    (viewport_u, viewport_v)
}

/// The pixel steps and the center of the top-left pixel.
#[verifier::rlimit(100)]
fn derive_pixel_grid(
    camera_settings: &CameraSettings,
    render_settings: &RenderSettings,
    image_height: usize,
    w: Vec3,
    viewport_u: Vec3,
    viewport_v: Vec3,
) -> (r: (Vec3, Vec3, Vec3))
    requires
        in_world_vec(camera_settings.position),
        0 < camera_settings.focus_dist <= 64 * FX_ONE,
        1 <= render_settings.image_width <= 0x4000,
        image_height as int == cam_height_spec(*camera_settings, *render_settings),
        1 <= image_height <= 0x4000,
        w == cam_w_spec(*camera_settings),
        abs_int(w.x as int) <= FX_ONE && abs_int(w.y as int) <= FX_ONE && abs_int(w.z as int)
            <= FX_ONE,
        viewport_u == cam_viewport_u_spec(*camera_settings, *render_settings),
        viewport_v == cam_viewport_v_spec(*camera_settings, *render_settings),
        small_vec(viewport_u),
        small_vec(viewport_v),
    ensures
        r.0 == cam_pixel_delta_u_spec(*camera_settings, *render_settings),
        r.1 == cam_pixel_delta_v_spec(*camera_settings, *render_settings),
        r.2 == cam_pixel00_spec(*camera_settings, *render_settings),
        small_vec(r.0),
        small_vec(r.1),
        in_world_vec(r.2),
{
    let wi = render_settings.image_width as i64;
    let hi = image_height as i64;
    let pixel_delta_u = clamp_small(
        Vec3 {
            x: floor_div(viewport_u.x, wi),
            y: floor_div(viewport_u.y, wi),
            z: floor_div(viewport_u.z, wi),
        },
    );
    let pixel_delta_v = clamp_small(
        Vec3 {
            x: floor_div(viewport_v.x, hi),
            y: floor_div(viewport_v.y, hi),
            z: floor_div(viewport_v.z, hi),
        },
    );
    proof {
        lemma_small_product(w.x as int, camera_settings.focus_dist as int, 1, 64);
        lemma_small_product(w.y as int, camera_settings.focus_dist as int, 1, 64);
        lemma_small_product(w.z as int, camera_settings.focus_dist as int, 1, 64);
    }
    let w_scaled = clamp_small(
        Vec3 {
            x: mul_fx(w.x, camera_settings.focus_dist),
            y: mul_fx(w.y, camera_settings.focus_dist),
            z: mul_fx(w.z, camera_settings.focus_dist),
        },
    );
    let half_vu = Vec3 {
        x: floor_div(viewport_u.x, 2),
        y: floor_div(viewport_u.y, 2),
        z: floor_div(viewport_u.z, 2),
    };
    let half_vv = Vec3 {
        x: floor_div(viewport_v.x, 2),
        y: floor_div(viewport_v.y, 2),
        z: floor_div(viewport_v.z, 2),
    };
    let viewport_upper_left = clamp_world(
        camera_settings.position.sub(w_scaled).sub(half_vu).sub(half_vv),
    );
    let pixel00_location = clamp_world(
        viewport_upper_left.add(
            Vec3 {
                x: floor_div(pixel_delta_u.x + pixel_delta_v.x, 2),
                y: floor_div(pixel_delta_u.y + pixel_delta_v.y, 2),
                z: floor_div(pixel_delta_u.z + pixel_delta_v.z, 2),
            },
        ),
    );
    (pixel_delta_u, pixel_delta_v, pixel00_location)
}

/// The two lens-disk axes for depth of field.
fn derive_defocus_disks(camera_settings: &CameraSettings, u: Vec3, v: Vec3) -> (r: (Vec3, Vec3))
    requires
        0 <= camera_settings.defocus_angle < 180 * FX_ONE,
        0 < camera_settings.focus_dist <= 64 * FX_ONE,
        u == cam_u_spec(*camera_settings),
        v == cam_v_spec(*camera_settings),
        abs_int(u.x as int) <= FX_ONE && abs_int(u.y as int) <= FX_ONE && abs_int(u.z as int)
            <= FX_ONE,
        abs_int(v.x as int) <= 2 * FX_ONE && abs_int(v.y as int) <= 2 * FX_ONE && abs_int(
            v.z as int,
        ) <= 2 * FX_ONE,
    ensures
        r.0 == cam_defocus_disk_u_spec(*camera_settings),
        r.1 == cam_defocus_disk_v_spec(*camera_settings),
        small_vec(r.0),
        small_vec(r.1),
{
    let half_defocus = floor_div(camera_settings.defocus_angle, 2);
    proof {
        vstd::arithmetic::div_mod::lemma_div_pos_is_pos(
            camera_settings.defocus_angle as int,
            2,
        );
        vstd::arithmetic::div_mod::lemma_div_is_ordered(
            camera_settings.defocus_angle as int,
            180 * FX_ONE,
            2,
        );
        lemma_small_product(half_defocus as int, PI_FX as int, 90, 4);
    }
    let defocus_rad = floor_div(mul_fx(half_defocus, PI_FX), 180);
    proof {
        vstd::arithmetic::div_mod::lemma_div_pos_is_pos(
            crate::fixed::fx_mul(half_defocus as int, PI_FX as int),
            180,
        );
        vstd::arithmetic::div_mod::lemma_div_is_ordered(
            crate::fixed::fx_mul(half_defocus as int, PI_FX as int),
            90 * 4 * FX_ONE,
            180,
        );
    }
    let sin_d = sin_fx(defocus_rad);
    let cos_d = cos_fx(defocus_rad);
    let cos_d = if cos_d < FX_ONE / 256 {
        FX_ONE / 256
    } else {
        cos_d
    };
    proof {
        lemma_tan_bound(sin_d as int, cos_d as int);
    }
    let tan_d = div_fx(sin_d, cos_d);
    proof {
        lemma_small_product(camera_settings.focus_dist as int, tan_d as int, 64, 256);
    }
    let defocus_radius = fx_clamp(
        mul_fx(camera_settings.focus_dist, tan_d),
        0,
        16 * FX_ONE,
    );
    proof {
        assert(defocus_radius as int == cam_defocus_radius_spec(*camera_settings));
        lemma_unit_times_radius(u, defocus_radius as int);
        lemma_unit_times_radius(v, defocus_radius as int);
    }
    let defocus_disk_u = clamp_small(
        Vec3 {
            x: mul_fx(u.x, defocus_radius),
            y: mul_fx(u.y, defocus_radius),
            z: mul_fx(u.z, defocus_radius),
        },
    );
    let defocus_disk_v = clamp_small(
        Vec3 {
            x: mul_fx(v.x, defocus_radius),
            y: mul_fx(v.y, defocus_radius),
            z: mul_fx(v.z, defocus_radius),
        },
    );
    (defocus_disk_u, defocus_disk_v)
}

impl Camera {
    /// A tiny preview quality.
    pub fn very_simple_debug_settings() -> (r: RenderSettings)
        ensures
            r == (RenderSettings { image_width: 10usize, samples_per_pixel: 4usize, max_depth: 10usize }),
    {
        RenderSettings { image_width: 10, samples_per_pixel: 4, max_depth: 10 }
    }

    /// A low debugging quality.
    pub fn low_debug_settings() -> (r: RenderSettings)
        ensures
            r == (RenderSettings {
                image_width: 400usize,
                samples_per_pixel: 50usize,
                max_depth: 20usize,
            }),
    {
        RenderSettings { image_width: 400, samples_per_pixel: 50, max_depth: 20 }
    }

    /// A debugging quality.
    pub fn debug_settings() -> (r: RenderSettings)
        ensures
            r == (RenderSettings {
                image_width: 800usize,
                samples_per_pixel: 100usize,
                max_depth: 20usize,
            }),
    {
        RenderSettings { image_width: 800, samples_per_pixel: 100, max_depth: 20 }
    }

    /// A medium final quality.
    pub fn medium_render_settings() -> (r: RenderSettings)
        ensures
            r == (RenderSettings {
                image_width: 1280usize,
                samples_per_pixel: 200usize,
                max_depth: 40usize,
            }),
    {
        RenderSettings { image_width: 1280, samples_per_pixel: 200, max_depth: 40 }
    }

    /// A high final quality.
    pub fn high_render_settings() -> (r: RenderSettings)
        ensures
            r == (RenderSettings {
                image_width: 1920usize,
                samples_per_pixel: 500usize,
                max_depth: 50usize,
            }),
    {
        RenderSettings { image_width: 1920, samples_per_pixel: 500, max_depth: 50 }
    }

    /// A very high final quality.
    pub fn very_high_render_settings() -> (r: RenderSettings)
        ensures
            r == (RenderSettings {
                image_width: 2560usize,
                samples_per_pixel: 1000usize,
                max_depth: 50usize,
            }),
    {
        RenderSettings { image_width: 2560, samples_per_pixel: 1000, max_depth: 50 }
    }

    /// An ultra-high final quality.
    pub fn ultra_high_render_settings() -> (r: RenderSettings)
        ensures
            r == (RenderSettings {
                image_width: 2560usize,
                samples_per_pixel: 10000usize,
                max_depth: 50usize,
            }),
    {
        RenderSettings { image_width: 2560, samples_per_pixel: 10000, max_depth: 50 }
    }

    /// A 4K final quality.
    pub fn four_k_render_settings() -> (r: RenderSettings)
        ensures
            r == (RenderSettings {
                image_width: 3840usize,
                samples_per_pixel: 10000usize,
                max_depth: 50usize,
            }),
    {
        RenderSettings { image_width: 3840, samples_per_pixel: 10000, max_depth: 50 }
    }

    /// Derive the camera state from the settings: viewport geometry
    /// from the field of view and focus distance, the pixel grid
    /// spanning it, and the lens disk, each pinned to its spec.
    /// Degenerate configurations are clamped to the supported ranges
    /// rather than failing.
    pub fn new(camera_settings: &CameraSettings, render_settings: &RenderSettings) -> (r: Camera)
        requires
            in_world_vec(camera_settings.position),
            in_world_vec(camera_settings.target_position),
            in_world_vec(camera_settings.up_direction),
            0 < camera_settings.fov < 180 * FX_ONE,
            FX_ONE / 4 <= camera_settings.aspect_ratio <= 16 * FX_ONE,
            0 <= camera_settings.defocus_angle < 180 * FX_ONE,
            0 < camera_settings.focus_dist <= 64 * FX_ONE,
            in_world_vec(camera_settings.background_color),
            1 <= render_settings.image_width <= 0x4000,
            1 <= render_settings.samples_per_pixel <= 0x10_0000,
            render_settings.max_depth <= 0x1000,
        ensures
            cam_wf(r),
            r.image_width == render_settings.image_width,
            r.samples_per_pixel == render_settings.samples_per_pixel,
            r.max_depth == render_settings.max_depth,
            r.background_color == camera_settings.background_color,
            r.defocus_angle == camera_settings.defocus_angle,
            r.position == camera_settings.position,
            r.image_height == cam_height_spec(*camera_settings, *render_settings),
            r.image_height >= 1,
            r.pixel00_location == cam_pixel00_spec(*camera_settings, *render_settings),
            r.pixel_delta_u == cam_pixel_delta_u_spec(*camera_settings, *render_settings),
            r.pixel_delta_v == cam_pixel_delta_v_spec(*camera_settings, *render_settings),
            r.defocus_disk_u == cam_defocus_disk_u_spec(*camera_settings),
            r.defocus_disk_v == cam_defocus_disk_v_spec(*camera_settings),
    {
        let image_height = derive_image_height(camera_settings, render_settings);
        let (w, u, v) = derive_basis(camera_settings);
        let (viewport_u, viewport_v) = derive_viewports(
            camera_settings,
            render_settings,
            image_height,
            u,
            v,
        );
        let (pixel_delta_u, pixel_delta_v, pixel00_location) = derive_pixel_grid(
            camera_settings,
            render_settings,
            image_height,
            w,
            viewport_u,
            viewport_v,
        );
        let (defocus_disk_u, defocus_disk_v) = derive_defocus_disks(camera_settings, u, v);
        Camera {
            image_width: render_settings.image_width,
            image_height,
            position: camera_settings.position,
            samples_per_pixel: render_settings.samples_per_pixel,
            max_depth: render_settings.max_depth,
            pixel00_location,
            pixel_delta_u,
            pixel_delta_v,
            defocus_angle: camera_settings.defocus_angle,
            defocus_disk_u,
            defocus_disk_v,
            background_color: camera_settings.background_color,
        }
    }

    /// A random point on the lens disk around the camera position.
    fn defocus_disk_sample(&self, rng: &mut RandomSource) -> (r: Vec3)
        requires
            cam_wf(*self),
        ensures
            abs_int(r.x as int) <= 2 * MAX_WORLD,
            abs_int(r.y as int) <= 2 * MAX_WORLD,
            abs_int(r.z as int) <= 2 * MAX_WORLD,
            exists|a: int, b: int| #[trigger] on_defocus_disk(*self, a, b, r),
    {
        let p = random_unit_disk_vec(rng);
        proof {
            lemma_small_times_unit(self.defocus_disk_u, p.x as int);
            lemma_small_times_unit(self.defocus_disk_v, p.y as int);
        }
        let du = Vec3 {
            x: mul_fx(self.defocus_disk_u.x, p.x),
            y: mul_fx(self.defocus_disk_u.y, p.x),
            z: mul_fx(self.defocus_disk_u.z, p.x),
        };
        let dv = Vec3 {
            x: mul_fx(self.defocus_disk_v.x, p.y),
            y: mul_fx(self.defocus_disk_v.y, p.y),
            z: mul_fx(self.defocus_disk_v.z, p.y),
        };
        let origin = self.position.add(du).add(dv);
        proof {
            assert(on_defocus_disk(*self, p.x as int, p.y as int, origin));
        }
        origin
    }

    /// A primary ray through pixel `(x, y)` (fixed-point indices),
    /// jittered inside the pixel, with a lens-disk origin when depth
    /// of field is on and a random time stamp for motion blur.
    fn get_ray(&self, x: i64, y: i64, rng: &mut RandomSource) -> (r: Ray)
        requires
            cam_wf(*self),
            0 <= x <= 0x4000 * FX_ONE,
            0 <= y <= 0x4000 * FX_ONE,
        ensures
            wf_ray(r),
            0 <= r.time < FX_ONE,
            self.defocus_angle <= 0 ==> r.origin == self.position,
            self.defocus_angle > 0 ==> exists|a: int, b: int|
                #[trigger] on_defocus_disk(*self, a, b, r.origin),
            exists|off: Vec3| #[trigger] primary_dir(*self, x as int, y as int, off, r),
    {
        let offset = random_unit_square_vec(rng);
        proof {
            lemma_pixel_term(self.pixel_delta_u, (x + offset.x) as int);
            lemma_pixel_term(self.pixel_delta_v, (y + offset.y) as int);
        }
        let su = Vec3 {
            x: mul_fx(self.pixel_delta_u.x, x + offset.x),
            y: mul_fx(self.pixel_delta_u.y, x + offset.x),
            z: mul_fx(self.pixel_delta_u.z, x + offset.x),
        };
        let sv = Vec3 {
            x: mul_fx(self.pixel_delta_v.x, y + offset.y),
            y: mul_fx(self.pixel_delta_v.y, y + offset.y),
            z: mul_fx(self.pixel_delta_v.z, y + offset.y),
        };
        let pixel_sample = clamp_world(self.pixel00_location.add(su).add(sv));
        let ray_origin = if self.defocus_angle <= 0 {
            self.position
        } else {
            self.defocus_disk_sample(rng)
        };
        let ray_time = rng.next_in(0, FX_ONE);
        let direction = pixel_sample.sub(ray_origin);
        let r = Ray { origin: ray_origin, direction, time: ray_time };
        proof {
            assert(primary_dir(*self, x as int, y as int, offset, r));
        }
        r
    }

    /// The recursive path integrator: black at depth zero, the
    /// background on a miss, the material's emission plus the
    /// attenuated recursive radiance on a scatter.
    pub fn ray_color(&self, ray: &Ray, hittable: &Hittable, depth: usize, rng: &mut RandomSource) -> (r:
        Color)
        requires
            cam_wf(*self),
            wf_ray(*ray),
            h_wf(*hittable),
        ensures
            vec_bounded(r),
            depth == 0 ==> r == (Vec3 { x: 0i64, y: 0i64, z: 0i64 }),
            depth > 0 && crate::hittable::h_det(*hittable) && crate::hittable::h_cand(
                *hittable,
                *ray,
                RAY_EPS as int,
                T_INF as int,
            ) is None ==> r == self.background_color,
            forall|c: Color|
                depth > 0 && crate::hittable::h_det(*hittable) && crate::hittable::h_all_prim(
                    *hittable,
                ) && #[trigger] all_solid_lights(crate::hittable::h_prim_members(*hittable), c)
                    && crate::hittable::h_cand(
                    *hittable,
                    *ray,
                    RAY_EPS as int,
                    T_INF as int,
                ) is Some ==> r == (Vec3 {
                    x: crate::fixed::clamp_spec(c.x as int, -8 * MAX_WORLD, 8 * MAX_WORLD) as i64,
                    y: crate::fixed::clamp_spec(c.y as int, -8 * MAX_WORLD, 8 * MAX_WORLD) as i64,
                    z: crate::fixed::clamp_spec(c.z as int, -8 * MAX_WORLD, 8 * MAX_WORLD) as i64,
                }),
        decreases depth,
    {
        if depth == 0 {
            return Vec3 { x: 0, y: 0, z: 0 };
        }
        let mut record = HitRecord::new(ray);
        if !hittable.hit(ray, RAY_EPS, T_INF, &mut record, rng) {
            return self.background_color;
        }
        let mat = match record.mat {
            Some(m) => m,
            None => {
                proof {
                    assert(false);
                }
                vstd::pervasive::unreached()
            },
        };
        let emission = mat.emitted(&record.uv, &record.point);
        proof {
            assert forall|c: Color|
                crate::hittable::h_all_prim(*hittable) && #[trigger] all_solid_lights(
                    crate::hittable::h_prim_members(*hittable),
                    c,
                ) implies *mat == Material::DiffuseLight(
                DiffuseLight { texture: Box::new(Texture::Solid(SolidColor { color: c })) },
            ) && emission == c by {
                let members = crate::hittable::h_prim_members(*hittable);
                let i = choose|i: int|
                    0 <= i < members.len() && #[trigger] crate::hittable::prim_fills(
                        members[i],
                        *ray,
                        record,
                    ) && crate::hittable::h_cand(members[i], *ray, RAY_EPS as int, T_INF as int)
                        == Some(record.t as int);
                assert(crate::hittable::prim_material(members[i]) == Material::DiffuseLight(
                    DiffuseLight { texture: Box::new(Texture::Solid(SolidColor { color: c })) },
                ));
            }
        }
        let mut attenuation = Vec3 { x: 0, y: 0, z: 0 };
        let mut scattered = Ray {
            origin: Vec3 { x: 0, y: 0, z: 0 },
            direction: Vec3 { x: 0, y: 0, z: 0 },
            time: ray.time,
        };
        if !mat.scatter(&mut record, &mut attenuation, &mut scattered, rng) {
            return clamp_vec3(&emission, -8 * MAX_WORLD, 8 * MAX_WORLD);
        }
        let recursive = self.ray_color(&scattered, hittable, depth - 1, rng);
        proof {
            lemma_small_product(attenuation.x as int, recursive.x as int, 32768, 32768);
            lemma_small_product(attenuation.y as int, recursive.y as int, 32768, 32768);
            lemma_small_product(attenuation.z as int, recursive.z as int, 32768, 32768);
        }
        let scatter = attenuation.mul_comp(recursive);
        proof {
            lemma_color_sum(emission, scatter);
        }
        clamp_vec3(
            &Vec3 {
                x: emission.x + scatter.x,
                y: emission.y + scatter.y,
                z: emission.z + scatter.z,
            },
            -8 * MAX_WORLD,
            8 * MAX_WORLD,
        )
    }

    /// Average `samples_per_pixel` jittered rays through one pixel,
    /// gamma-correct, clamp, and quantize: every channel of the
    /// result is an integer in `[0, 255]`.
    pub fn render_pixel(&self, hittable: &Hittable, i: usize, rng: &mut RandomSource) -> (r: Pixel)
        requires
            cam_wf(*self),
            h_wf(*hittable),
            i < self.image_width * self.image_height,
        ensures
            r.x <= 255,
            r.y <= 255,
            r.z <= 255,
            pixel_from_samples(r, self.samples_per_pixel as int),
    {
        let row_index = (i / self.image_width) as i64;
        let column_index = (i % self.image_width) as i64;
        proof {
            vstd::arithmetic::div_mod::lemma_mod_bound(i as int, self.image_width as int);
            assert((i as int) / (self.image_width as int) < (self.image_height as int)) by {
                vstd::arithmetic::div_mod::lemma_multiply_divide_lt(
                    i as int,
                    self.image_width as int,
                    self.image_height as int,
                );
            }
            lemma_small_product(column_index as int, FX_ONE as int, 0x4000, 1);
            lemma_small_product(row_index as int, FX_ONE as int, 0x4000, 1);
        }
        let x_fx = column_index * FX_ONE;
        let y_fx = row_index * FX_ONE;
        let mut sum = Vec3 { x: 0, y: 0, z: 0 };
        let mut s: usize = 0;
        let spp = self.samples_per_pixel;
        while s < spp
            invariant
                cam_wf(*self),
                h_wf(*hittable),
                s <= spp,
                spp == self.samples_per_pixel,
                0 <= x_fx <= 0x4000 * FX_ONE,
                0 <= y_fx <= 0x4000 * FX_ONE,
                abs_int(sum.x as int) <= s * (8 * MAX_WORLD),
                abs_int(sum.y as int) <= s * (8 * MAX_WORLD),
                abs_int(sum.z as int) <= s * (8 * MAX_WORLD),
            decreases spp - s,
        {
            let ray = self.get_ray(x_fx, y_fx, rng);
            let c = self.ray_color(&ray, hittable, self.max_depth, rng);
            proof {
                lemma_sum_step(sum, c, s as int, spp as int);
            }
            sum = Vec3 { x: sum.x + c.x, y: sum.y + c.y, z: sum.z + c.z };
            s = s + 1;
        }
        let n = spp as i64;
        proof {
            lemma_avg_bounds(sum.x as int, n as int, spp as int);
            lemma_avg_bounds(sum.y as int, n as int, spp as int);
            lemma_avg_bounds(sum.z as int, n as int, spp as int);
        }
        let avg = clamp_world(
            Vec3 { x: floor_div(sum.x, n), y: floor_div(sum.y, n), z: floor_div(sum.z, n) },
        );
        let gamma = sqrt_vec(&avg);
        proof {
            lemma_gamma_bounds(avg.x as int, gamma.x as int);
            lemma_gamma_bounds(avg.y as int, gamma.y as int);
            lemma_gamma_bounds(avg.z as int, gamma.z as int);
        }
        let clamped = clamp_vec3(&gamma, 0, FX_ONE - 1);
        let scaled = Vec3 { x: clamped.x * 256, y: clamped.y * 256, z: clamped.z * 256 };
        let pix = color_to_pixel(&scaled);
        proof {
            lemma_quantize(clamped.x as int);
            lemma_quantize(clamped.y as int);
            lemma_quantize(clamped.z as int);
            crate::fixed::lemma_floor_sqrt_of(
                if avg.x >= 0 {
                    avg.x * FX_ONE
                } else {
                    0
                },
                gamma.x as int,
            );
            crate::fixed::lemma_floor_sqrt_of(
                if avg.y >= 0 {
                    avg.y * FX_ONE
                } else {
                    0
                },
                gamma.y as int,
            );
            crate::fixed::lemma_floor_sqrt_of(
                if avg.z >= 0 {
                    avg.z * FX_ONE
                } else {
                    0
                },
                gamma.z as int,
            );
            assert(pix == quantize_spec(sum, spp as int));
            assert(pixel_from_samples(pix, spp as int));
        }
        pix
    }

    /// Render every pixel in row-major order: one quantized color
    /// triple per pixel, each channel in `[0, 255]`.
    pub fn render(&self, hittable: &Hittable, rng: &mut RandomSource) -> (r: Vec<Pixel>)
        requires
            cam_wf(*self),
            h_wf(*hittable),
        ensures
            r.len() == self.image_width * self.image_height,
            forall|i: int|
                0 <= i < r.len() ==> (#[trigger] r[i]).x <= 255 && r[i].y <= 255 && r[i].z <= 255,
            forall|i: int|
                0 <= i < r.len() ==> pixel_from_samples(
                    #[trigger] r[i],
                    self.samples_per_pixel as int,
                ),
    {
        proof {
            assert(self.image_width as int * self.image_height as int <= 0x1000_0000)
                by (nonlinear_arith)
                requires
                    1 <= self.image_width <= 0x4000,
                    1 <= self.image_height <= 0x4000,
            ;
        }
        let num_pixels = self.image_width * self.image_height;
        let mut pixels: Vec<Pixel> = Vec::new();
        let mut i: usize = 0;
        while i < num_pixels
            invariant
                cam_wf(*self),
                h_wf(*hittable),
                num_pixels == self.image_width * self.image_height,
                num_pixels <= 0x1000_0000,
                i <= num_pixels,
                pixels.len() == i,
                forall|j: int|
                    0 <= j < i ==> (#[trigger] pixels[j]).x <= 255 && pixels[j].y <= 255
                        && pixels[j].z <= 255,
                forall|j: int|
                    0 <= j < i ==> pixel_from_samples(
                        #[trigger] pixels[j],
                        self.samples_per_pixel as int,
                    ),
            decreases num_pixels - i,
        {
            let p = self.render_pixel(hittable, i, rng);
            pixels.push(p);
            i = i + 1;
        }
        pixels
    }
}

proof fn lemma_ratio_bound(w: int, aspect: int)
    requires
        0 <= w <= 0x4000 * FX_ONE,
        FX_ONE / 4 <= aspect,
    ensures
        0 <= crate::fixed::fx_div(w, aspect) <= 0x10000 * FX_ONE,
        abs_int(crate::fixed::fx_div(w, aspect)) <= 0x7fff_ffff_ffff_ffff,
{
    crate::fixed::lemma_tdiv_bound(w * FX_ONE, aspect);
    vstd::arithmetic::div_mod::lemma_div_pos_is_pos(w * FX_ONE, aspect);
    assert(w * FX_ONE <= (0x10000 * FX_ONE) * aspect) by (nonlinear_arith)
        requires
            0 <= w <= 0x4000 * FX_ONE,
            FX_ONE / 4 <= aspect,
            FX_ONE == 0x100_0000,
    ;
    vstd::arithmetic::div_mod::lemma_div_is_ordered(w * FX_ONE, (0x10000 * FX_ONE) * aspect, aspect);
    vstd::arithmetic::div_mod::lemma_div_multiples_vanish(0x10000 * FX_ONE, aspect);
    assert((0x10000 * FX_ONE) * aspect == aspect * (0x10000 * FX_ONE)) by (nonlinear_arith);
}

proof fn lemma_tan_bound(s: int, c: int)
    requires
        -FX_ONE <= s <= FX_ONE,
        FX_ONE / 256 <= c <= FX_ONE,
    ensures
        abs_int(crate::fixed::fx_div(s, c)) <= 256 * FX_ONE,
{
    crate::fixed::lemma_tdiv_bound(s * FX_ONE, c);
    assert(abs_int(s * FX_ONE) <= c * (256 * FX_ONE)) by (nonlinear_arith)
        requires
            -FX_ONE <= s <= FX_ONE,
            FX_ONE / 256 <= c,
            FX_ONE == 0x100_0000,
    ;
    vstd::arithmetic::div_mod::lemma_div_is_ordered(abs_int(s * FX_ONE), c * (256 * FX_ONE), c);
    vstd::arithmetic::div_mod::lemma_div_multiples_vanish(256 * FX_ONE, c);
}

proof fn lemma_ratio_small(vh: int, w: int, h: int)
    requires
        h >= 1,
        0 <= w <= 0x4000 * FX_ONE,
        h <= 0x4000,
    ensures
        0 <= crate::fixed::fx_div(w, h * FX_ONE) <= 0x4000 * FX_ONE,
        abs_int(crate::fixed::fx_div(w, h * FX_ONE)) <= 0x7fff_ffff_ffff_ffff,
{
    crate::fixed::lemma_tdiv_bound(w * FX_ONE, h * FX_ONE);
    vstd::arithmetic::div_mod::lemma_div_pos_is_pos(w * FX_ONE, h * FX_ONE);
    assert(w * FX_ONE <= (h * FX_ONE) * (0x4000 * FX_ONE)) by (nonlinear_arith)
        requires
            0 <= w <= 0x4000 * FX_ONE,
            h >= 1,
            FX_ONE == 0x100_0000,
    ;
    vstd::arithmetic::div_mod::lemma_div_is_ordered(
        w * FX_ONE,
        (h * FX_ONE) * (0x4000 * FX_ONE),
        h * FX_ONE,
    );
    vstd::arithmetic::div_mod::lemma_div_multiples_vanish(0x4000 * FX_ONE, h * FX_ONE);
    assert((h * FX_ONE) * (0x4000 * FX_ONE) == (0x4000 * FX_ONE) * (h * FX_ONE))
        by (nonlinear_arith);
}

proof fn lemma_cross_small(a: Vec3, b: Vec3)
    requires
        in_world_vec(a),
        abs_int(b.x as int) <= FX_ONE,
        abs_int(b.y as int) <= FX_ONE,
        abs_int(b.z as int) <= FX_ONE,
    ensures
        vec_bounded(crate::vector::cross_spec(a, b)),
{
    lemma_small_product(a.y as int, b.z as int, 4096, 1);
    lemma_small_product(a.z as int, b.y as int, 4096, 1);
    lemma_small_product(a.z as int, b.x as int, 4096, 1);
    lemma_small_product(a.x as int, b.z as int, 4096, 1);
    lemma_small_product(a.x as int, b.y as int, 4096, 1);
    lemma_small_product(a.y as int, b.x as int, 4096, 1);
}

proof fn lemma_unit_cross(a: Vec3, b: Vec3)
    requires
        abs_int(a.x as int) <= FX_ONE,
        abs_int(a.y as int) <= FX_ONE,
        abs_int(a.z as int) <= FX_ONE,
        abs_int(b.x as int) <= FX_ONE,
        abs_int(b.y as int) <= FX_ONE,
        abs_int(b.z as int) <= FX_ONE,
    ensures
        abs_int(crate::vector::cross_spec(a, b).x as int) <= 2 * FX_ONE,
        abs_int(crate::vector::cross_spec(a, b).y as int) <= 2 * FX_ONE,
        abs_int(crate::vector::cross_spec(a, b).z as int) <= 2 * FX_ONE,
        vec_bounded(a),
        vec_bounded(b),
        forall|c: int, vw: int|
            abs_int(c) <= 2 * FX_ONE && 0 <= vw <= 1024 * FX_ONE ==> abs_int(#[trigger] (c * vw))
                <= 0x7fff_ffff_ffff_ffff * (FX_ONE as int) && abs_int(
                crate::fixed::fx_mul(c, vw),
            ) <= 2048 * FX_ONE,
{
    lemma_small_product(a.y as int, b.z as int, 1, 1);
    lemma_small_product(a.z as int, b.y as int, 1, 1);
    lemma_small_product(a.z as int, b.x as int, 1, 1);
    lemma_small_product(a.x as int, b.z as int, 1, 1);
    lemma_small_product(a.x as int, b.y as int, 1, 1);
    lemma_small_product(a.y as int, b.x as int, 1, 1);
    assert forall|c: int, vw: int| abs_int(c) <= 2 * FX_ONE && 0 <= vw <= 1024 * FX_ONE implies abs_int(
        #[trigger] (c * vw),
    ) <= 0x7fff_ffff_ffff_ffff * (FX_ONE as int) && abs_int(crate::fixed::fx_mul(c, vw)) <= 2048
        * FX_ONE by {
        lemma_small_product(c, vw, 2, 1024);
    }
}

proof fn lemma_unit_times_radius(u: Vec3, radius: int)
    requires
        abs_int(u.x as int) <= 2 * FX_ONE,
        abs_int(u.y as int) <= 2 * FX_ONE,
        abs_int(u.z as int) <= 2 * FX_ONE,
        0 <= radius <= 16 * FX_ONE,
    ensures
        abs_int(u.x as int * radius) <= 0x7fff_ffff_ffff_ffff * (FX_ONE as int),
        abs_int(u.y as int * radius) <= 0x7fff_ffff_ffff_ffff * (FX_ONE as int),
        abs_int(u.z as int * radius) <= 0x7fff_ffff_ffff_ffff * (FX_ONE as int),
{
    lemma_small_product(u.x as int, radius, 2, 16);
    lemma_small_product(u.y as int, radius, 2, 16);
    lemma_small_product(u.z as int, radius, 2, 16);
}

proof fn lemma_small_times_unit(v: Vec3, c: int)
    requires
        small_vec(v),
        abs_int(c) <= FX_ONE,
    ensures
        abs_int(v.x as int * c) <= 0x7fff_ffff_ffff_ffff * (FX_ONE as int),
        abs_int(v.y as int * c) <= 0x7fff_ffff_ffff_ffff * (FX_ONE as int),
        abs_int(v.z as int * c) <= 0x7fff_ffff_ffff_ffff * (FX_ONE as int),
        abs_int(crate::fixed::fx_mul(v.x as int, c)) <= 16 * FX_ONE,
        abs_int(crate::fixed::fx_mul(v.y as int, c)) <= 16 * FX_ONE,
        abs_int(crate::fixed::fx_mul(v.z as int, c)) <= 16 * FX_ONE,
{
    lemma_small_product(v.x as int, c, 16, 1);
    lemma_small_product(v.y as int, c, 16, 1);
    lemma_small_product(v.z as int, c, 16, 1);
}

proof fn lemma_pixel_term(v: Vec3, c: int)
    requires
        small_vec(v),
        abs_int(c) <= 0x4001 * FX_ONE,
    ensures
        abs_int(v.x as int * c) <= 0x7fff_ffff_ffff_ffff * (FX_ONE as int),
        abs_int(v.y as int * c) <= 0x7fff_ffff_ffff_ffff * (FX_ONE as int),
        abs_int(v.z as int * c) <= 0x7fff_ffff_ffff_ffff * (FX_ONE as int),
        abs_int(crate::fixed::fx_mul(v.x as int, c)) <= 0x40010 * FX_ONE,
        abs_int(crate::fixed::fx_mul(v.y as int, c)) <= 0x40010 * FX_ONE,
        abs_int(crate::fixed::fx_mul(v.z as int, c)) <= 0x40010 * FX_ONE,
{
    lemma_small_product(v.x as int, c, 16, 0x4001);
    lemma_small_product(v.y as int, c, 16, 0x4001);
    lemma_small_product(v.z as int, c, 16, 0x4001);
}

proof fn lemma_color_sum(a: Color, b: Color)
    requires
        vec_bounded(a),
        abs_int(b.x as int) <= 32768 * 32768 * FX_ONE,
        abs_int(b.y as int) <= 32768 * 32768 * FX_ONE,
        abs_int(b.z as int) <= 32768 * 32768 * FX_ONE,
    ensures
        abs_int(a.x + b.x) < i64::MAX,
        abs_int(a.y + b.y) < i64::MAX,
        abs_int(a.z + b.z) < i64::MAX,
{
}

proof fn lemma_sum_step(sum: Vec3, c: Color, s: int, spp: int)
    requires
        abs_int(sum.x as int) <= s * (8 * MAX_WORLD),
        abs_int(sum.y as int) <= s * (8 * MAX_WORLD),
        abs_int(sum.z as int) <= s * (8 * MAX_WORLD),
        vec_bounded(c),
        0 <= s < spp,
        spp <= 0x10_0000,
    ensures
        abs_int(sum.x + c.x) <= (s + 1) * (8 * MAX_WORLD),
        abs_int(sum.y + c.y) <= (s + 1) * (8 * MAX_WORLD),
        abs_int(sum.z + c.z) <= (s + 1) * (8 * MAX_WORLD),
        (s + 1) * (8 * MAX_WORLD) < i64::MAX,
{
    assert((s + 1) * (8 * MAX_WORLD) == s * (8 * MAX_WORLD) + 8 * MAX_WORLD) by (nonlinear_arith);
    assert((s + 1) * (8 * MAX_WORLD) <= 0x10_0000 * (8 * MAX_WORLD)) by (nonlinear_arith)
        requires
            s + 1 <= 0x10_0000,
            MAX_WORLD == 0x10_0000_0000,
    ;
}

proof fn lemma_avg_bounds(sum: int, n: int, spp: int)
    requires
        abs_int(sum) <= spp * (8 * MAX_WORLD),
        n == spp,
        1 <= spp <= 0x10_0000,
    ensures
        sum / n <= 8 * MAX_WORLD,
        sum / n >= -8 * MAX_WORLD - 1,
        abs_int(sum / n) <= 16 * MAX_WORLD,
{
    vstd::arithmetic::div_mod::lemma_fundamental_div_mod(sum, n);
    vstd::arithmetic::div_mod::lemma_mod_bound(sum, n);
    let q = sum / n;
    assert(q <= 8 * MAX_WORLD && q >= -8 * MAX_WORLD - 1) by (nonlinear_arith)
        requires
            sum == n * q + sum % n,
            0 <= sum % n < n,
            abs_int(sum) <= n * (8 * MAX_WORLD),
            1 <= n,
            MAX_WORLD == 0x10_0000_0000,
    ;
}

proof fn lemma_gamma_bounds(c: int, g: int)
    requires
        abs_int(c) <= MAX_WORLD,
        crate::vector::sqrt_component(c, g),
    ensures
        0 <= g <= 0x1_0000_0000,
{
    assert(g <= 0x1_0000_0000) by (nonlinear_arith)
        requires
            g >= 0,
            g * g <= (if c >= 0 {
                c * FX_ONE
            } else {
                0
            }),
            abs_int(c) <= MAX_WORLD,
            MAX_WORLD == 0x10_0000_0000,
            FX_ONE == 0x100_0000,
    ;
}

proof fn lemma_quantize(c: int)
    requires
        0 <= c <= FX_ONE - 1,
    ensures
        0 <= (c * 256) / (FX_ONE as int) <= 255,
        crate::fixed::clamp_spec((c * 256) / (FX_ONE as int), 0, 0xffff_ffff) <= 255,
{
    vstd::arithmetic::div_mod::lemma_div_pos_is_pos(c * 256, FX_ONE as int);
    assert(c * 256 <= 256 * FX_ONE - 256) by (nonlinear_arith)
        requires
            0 <= c <= FX_ONE - 1,
            FX_ONE == 0x100_0000,
    ;
    vstd::arithmetic::div_mod::lemma_div_is_ordered(c * 256, 256 * FX_ONE - 256, FX_ONE as int);
    assert((256 * FX_ONE - 256) / (FX_ONE as int) == 255);
}

} // verus!
