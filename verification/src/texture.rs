//! Textures: solid colors, the recursive checkerboard, bilinear
//! image sampling, and procedural noise.

use vstd::prelude::*;

use crate::fixed::{
    abs_int, floor_div, floor_units, fx_div, fx_mul, mul_fx, sin_fx, FX_ONE, MAX_WORLD,
};
use crate::perlin::{wf_perlin, Perlin};
use crate::rng::RandomSource;
use crate::vector::{clamp_vec2, in_world_vec, vec_bounded, Color, Vec2, Vec3};

verus! {

/// A constant color.
pub struct SolidColor {
    pub color: Color,
}

/// Two sub-textures keyed on the floor-sum parity of the scaled
/// sample point.
pub struct CheckerBoard {
    pub inverse_scale: i64,
    pub even: Box<Texture>,
    pub odd: Box<Texture>,
}

/// A decoded raster sampled bilinearly with clamped coordinates.
pub struct ImageTexture {
    pub width: usize,
    pub height: usize,
    pub pixels: Vec<Color>,
}

/// Procedural noise mapped through a sine phase function.
pub struct NoiseTexture {
    pub perlin: Perlin,
    pub scale: i64,
    pub phase: i64,
    pub frequency: i64,
    pub power: i64,
}

/// The closed set of texture variants.
pub enum Texture {
    Solid(SolidColor),
    Checker(CheckerBoard),
    Image(ImageTexture),
    Noise(NoiseTexture),
}

/// Structural bounds every texture keeps: stored colors are world
/// bounded, scales are small enough that sampling arithmetic is
/// exact, rasters have consistent dimensions.
pub open spec fn wf_texture(t: Texture) -> bool
    decreases t,
{
    match t {
        Texture::Solid(c) => in_world_vec(c.color),
        Texture::Checker(c) => {
            &&& abs_int(c.inverse_scale as int) <= 256 * FX_ONE
            &&& wf_texture(*c.even)
            &&& wf_texture(*c.odd)
        },
        Texture::Image(img) => {
            &&& img.pixels.len() == img.width * img.height
            &&& img.width <= 0x10000
            &&& img.height <= 0x10000
            &&& forall|i: int|
                0 <= i < img.pixels.len() ==> in_world_vec(#[trigger] img.pixels[i]) && 0
                    <= img.pixels[i].x && 0 <= img.pixels[i].y && 0 <= img.pixels[i].z
        },
        Texture::Noise(n) => {
            &&& wf_perlin(n.perlin)
            &&& abs_int(n.scale as int) <= 64 * FX_ONE
            &&& abs_int(n.phase as int) <= 16 * FX_ONE
            &&& abs_int(n.frequency as int) <= 16 * FX_ONE
            &&& abs_int(n.power as int) <= 16 * FX_ONE
        },
    }
}

/// The scaled point a checkerboard hands to its sub-textures,
/// clamped into the bounded world range so nested textures stay
/// exact.
pub open spec fn checker_scaled(inv: int, p: Vec3) -> Vec3 {
    Vec3 {
        x: crate::fixed::clamp_spec(fx_mul(p.x as int, inv), -8 * MAX_WORLD, 8 * MAX_WORLD) as i64,
        y: crate::fixed::clamp_spec(fx_mul(p.y as int, inv), -8 * MAX_WORLD, 8 * MAX_WORLD) as i64,
        z: crate::fixed::clamp_spec(fx_mul(p.z as int, inv), -8 * MAX_WORLD, 8 * MAX_WORLD) as i64,
    }
}

/// The checkerboard parity at a (scaled) point: whether the sum of
/// the componentwise floors is even.
pub open spec fn checker_even(p: Vec3) -> bool {
    ((p.x as int) / (FX_ONE as int) + (p.y as int) / (FX_ONE as int) + (p.z as int) / (
    FX_ONE as int)) % 2 == 0
}

/// The sample color of the texture variants whose result is a pure
/// function the contracts pin down completely: solid colors and
/// checkerboards over such textures.  Image and noise lookups are
/// specified by their own (range) contracts instead.
pub open spec fn sample_flat(t: Texture, p: Vec3) -> Option<Color>
    decreases t,
{
    match t {
        Texture::Solid(c) => Some(c.color),
        Texture::Checker(c) => {
            let sp = checker_scaled(c.inverse_scale as int, p);
            if checker_even(sp) {
                sample_flat(*c.even, sp)
            } else {
                sample_flat(*c.odd, sp)
            }
        },
        Texture::Image(_) => None,
        Texture::Noise(_) => None,
    }
}

impl SolidColor {
    pub fn from(color: Color) -> (r: SolidColor)
        ensures
            r.color == color,
    {
        SolidColor { color }
    }

    pub fn new(red: i64, green: i64, blue: i64) -> (r: SolidColor)
        ensures
            r.color == (Vec3 { x: red, y: green, z: blue }),
    {
        SolidColor { color: Vec3 { x: red, y: green, z: blue } }
    }
}

impl CheckerBoard {
    /// A checkerboard with the given nonzero cell scale; the stored
    /// reciprocal saturates at the representable magnitude, so cells
    /// narrower than `1/256` of a world unit clamp (a machine limit).
    pub fn new(scale: i64, even: Box<Texture>, odd: Box<Texture>) -> (r: CheckerBoard)
        requires
            scale != 0,
        ensures
            r.inverse_scale == crate::fixed::clamp_spec(
                fx_div(FX_ONE as int, scale as int),
                -256 * FX_ONE,
                256 * FX_ONE,
            ),
            r.even == even,
            r.odd == odd,
            abs_int(r.inverse_scale as int) <= 256 * FX_ONE,
    {
        proof {
            lemma_inverse_scale_fits(scale as int);
        }
        let inverse_scale = crate::fixed::fx_clamp(
            crate::fixed::div_fx(FX_ONE, scale),
            -256 * FX_ONE,
            256 * FX_ONE,
        );
        CheckerBoard { inverse_scale, even, odd }
    }

    /// A checkerboard over two solid colors.
    pub fn from_colors(scale: i64, even_color: Color, odd_color: Color) -> (r: CheckerBoard)
        requires
            scale != 0,
        ensures
            r.inverse_scale == crate::fixed::clamp_spec(
                fx_div(FX_ONE as int, scale as int),
                -256 * FX_ONE,
                256 * FX_ONE,
            ),
            r.even == Texture::Solid(SolidColor { color: even_color }),
            r.odd == Texture::Solid(SolidColor { color: odd_color }),
            abs_int(r.inverse_scale as int) <= 256 * FX_ONE,
    {
        CheckerBoard::new(
            scale,
            Box::new(Texture::Solid(SolidColor { color: even_color })),
            Box::new(Texture::Solid(SolidColor { color: odd_color })),
        )
    }
}

proof fn lemma_inverse_scale_fits(scale: int)
    requires
        scale != 0,
    ensures
        abs_int(fx_div(FX_ONE as int, scale)) <= 0x1_0000_0000_0000,
{
    if scale > 0 {
        crate::fixed::lemma_tdiv_bound(FX_ONE as int * FX_ONE, scale);
    } else {
        crate::fixed::lemma_tdiv_bound(FX_ONE as int * FX_ONE, -scale);
    }
}

impl ImageTexture {
    /// A texture over an already-decoded raster, row major from the
    /// top row down; the pixel count must match the dimensions.
    pub fn new(width: usize, height: usize, pixels: Vec<Color>) -> (r: ImageTexture)
        requires
            pixels.len() == width * height,
            width <= 0x10000,
            height <= 0x10000,
        ensures
            r.width == width,
            r.height == height,
            r.pixels == pixels,
    {
        ImageTexture { width, height, pixels }
    }
}

impl NoiseTexture {
    /// A noise texture seeded explicitly; `roughness` and
    /// `frequency` are accepted for symmetry with a multi-octave
    /// turbulence interface, but the single-octave generator does
    /// not vary with them.
    pub fn new(seed: u32, scale: i64, phase: i64, roughness: usize, frequency: i64, power: i64) -> (r:
        NoiseTexture)
        requires
            abs_int(scale as int) <= 64 * FX_ONE,
            abs_int(phase as int) <= 16 * FX_ONE,
            abs_int(frequency as int) <= 16 * FX_ONE,
            abs_int(power as int) <= 16 * FX_ONE,
        ensures
            wf_texture(Texture::Noise(r)),
            r.scale == scale,
            r.phase == phase,
    {
        let _ = roughness;
        let mut rng = RandomSource::new(seed as u64);
        let perlin = Perlin::new(&mut rng);
        NoiseTexture { perlin, scale, phase, frequency, power }
    }
}

impl Texture {
    /// A deep copy: well-formedness and every pinned sample value
    /// carry over.
    pub fn dup(&self) -> (r: Texture)
        ensures
            wf_texture(*self) ==> wf_texture(r),
            forall|p: Vec3| #[trigger] sample_flat(r, p) == sample_flat(*self, p),
        decreases *self,
    {
        match self {
            Texture::Solid(c) => Texture::Solid(SolidColor { color: c.color }),
            Texture::Checker(c) => {
                let even = c.even.dup();
                let odd = c.odd.dup();
                let r = Texture::Checker(
                    CheckerBoard {
                        inverse_scale: c.inverse_scale,
                        even: Box::new(even),
                        odd: Box::new(odd),
                    },
                );
                proof {
                    assert forall|p: Vec3| #[trigger] sample_flat(r, p) == sample_flat(
                        *self,
                        p,
                    ) by {
                        let sp = checker_scaled(c.inverse_scale as int, p);
                        assert(sample_flat(even, sp) == sample_flat(*c.even, sp));
                        assert(sample_flat(odd, sp) == sample_flat(*c.odd, sp));
                    }
                }
                r
            },
            Texture::Image(img) => {
                let mut pixels: Vec<Color> = Vec::new();
                let mut i: usize = 0;
                let n = img.pixels.len();
                while i < n
                    invariant
                        n == img.pixels.len(),
                        i <= n,
                        pixels@ == img.pixels@.subrange(0, i as int),
                    decreases n - i,
                {
                    let c = img.pixels[i];
                    pixels.push(c);
                    proof {
                        assert(pixels@ =~= img.pixels@.subrange(0, i as int + 1));
                    }
                    i = i + 1;
                }
                proof {
                    assert(pixels@ =~= img.pixels@);
                }
                Texture::Image(ImageTexture { width: img.width, height: img.height, pixels })
            },
            Texture::Noise(n) => {
                let mut pool: Vec<i64> = Vec::new();
                let mut px: Vec<usize> = Vec::new();
                let mut py: Vec<usize> = Vec::new();
                let mut pz: Vec<usize> = Vec::new();
                copy_i64(&n.perlin.pool, &mut pool);
                copy_usize(&n.perlin.perm_x, &mut px);
                copy_usize(&n.perlin.perm_y, &mut py);
                copy_usize(&n.perlin.perm_z, &mut pz);
                Texture::Noise(
                    NoiseTexture {
                        perlin: Perlin { pool, perm_x: px, perm_y: py, perm_z: pz },
                        scale: n.scale,
                        phase: n.phase,
                        frequency: n.frequency,
                        power: n.power,
                    },
                )
            },
        }
    }

    /// Sample the texture at surface coordinates `uv` and world point
    /// `point`.  For solid colors and checkerboards the result is
    /// pinned exactly; every variant returns a world-bounded color.
    pub fn sample(&self, uv: &Vec2, point: &Vec3) -> (r: Color)
        requires
            wf_texture(*self),
            vec_bounded(*point),
        ensures
            sample_flat(*self, *point) matches Some(c) ==> r == c,
            self matches Texture::Image(img) ==> r == bilinear_spec(
                img.width as int,
                img.height as int,
                img.pixels@,
                *uv,
            ),
            self matches Texture::Noise(n) ==> r == noise_sample_spec(*n, *point),
            vec_bounded(r),
        decreases *self,
    {
        match self {
            Texture::Solid(c) => c.color,
            Texture::Checker(c) => {
                proof {
                    lemma_checker_scaled_bounded(c.inverse_scale as int, *point);
                }
                let sx = crate::fixed::fx_clamp(
                    mul_fx(point.x, c.inverse_scale),
                    -8 * MAX_WORLD,
                    8 * MAX_WORLD,
                );
                let sy = crate::fixed::fx_clamp(
                    mul_fx(point.y, c.inverse_scale),
                    -8 * MAX_WORLD,
                    8 * MAX_WORLD,
                );
                let sz = crate::fixed::fx_clamp(
                    mul_fx(point.z, c.inverse_scale),
                    -8 * MAX_WORLD,
                    8 * MAX_WORLD,
                );
                let scaled = Vec3 { x: sx, y: sy, z: sz };
                let fsum = floor_units(sx) + floor_units(sy) + floor_units(sz);
                let m = fsum - 2 * floor_div(fsum, 2);
                proof {
                    vstd::arithmetic::div_mod::lemma_fundamental_div_mod(fsum as int, 2);
                }
                if m == 0 {
                    c.even.sample(uv, &scaled)
                } else {
                    c.odd.sample(uv, &scaled)
                }
            },
            Texture::Image(img) => img.sample_bilinear(uv),
            Texture::Noise(n) => n.sample_noise(point),
        }
    }
}

proof fn lemma_checker_scaled_bounded(inv: int, p: Vec3)
    requires
        abs_int(inv) <= 256 * FX_ONE,
        vec_bounded(p),
    ensures
        vec_bounded(checker_scaled(inv, p)),
        abs_int(p.x as int * inv) <= 0x7fff_ffff_ffff_ffff * (FX_ONE as int),
        abs_int(p.y as int * inv) <= 0x7fff_ffff_ffff_ffff * (FX_ONE as int),
        abs_int(p.z as int * inv) <= 0x7fff_ffff_ffff_ffff * (FX_ONE as int),
        abs_int(fx_mul(p.x as int, inv)) < i64::MAX,
        abs_int(fx_mul(p.y as int, inv)) < i64::MAX,
        abs_int(fx_mul(p.z as int, inv)) < i64::MAX,
{
    lemma_checker_component(p.x as int, inv);
    lemma_checker_component(p.y as int, inv);
    lemma_checker_component(p.z as int, inv);
}

proof fn lemma_checker_component(c: int, inv: int)
    requires
        abs_int(inv) <= 256 * FX_ONE,
        -8 * MAX_WORLD <= c <= 8 * MAX_WORLD,
    ensures
        abs_int(fx_mul(c, inv)) <= 8 * MAX_WORLD * 256,
        abs_int(c * inv) <= 0x7fff_ffff_ffff_ffff * (FX_ONE as int),
{
    assert(abs_int(c * inv) <= 8 * MAX_WORLD * (256 * FX_ONE) && 8 * MAX_WORLD * (256 * FX_ONE)
        <= 0x7fff_ffff_ffff_ffff * (FX_ONE as int)) by (nonlinear_arith)
        requires
            -256 * FX_ONE <= inv <= 256 * FX_ONE,
            -8 * MAX_WORLD <= c <= 8 * MAX_WORLD,
            MAX_WORLD == 0x10_0000_0000,
            FX_ONE == 0x100_0000,
    ;
    crate::fixed::lemma_tdiv_bound(c * inv, FX_ONE as int);
    vstd::arithmetic::div_mod::lemma_div_is_ordered(
        abs_int(c * inv),
        8 * MAX_WORLD * (256 * FX_ONE),
        FX_ONE as int,
    );
    assert((8 * MAX_WORLD * (256 * FX_ONE)) / (FX_ONE as int) == 8 * MAX_WORLD * 256)
        by (nonlinear_arith)
        requires
            MAX_WORLD == 0x10_0000_0000,
            FX_ONE == 0x100_0000,
    ;
}

/// The bilinear raster sample, exactly as `sample_bilinear` computes
/// it: the surface coordinates are clamped into the unit square and
/// flipped vertically, scaled onto the raster grid, and the four
/// neighboring texels are mixed by the fractional fixed-point
/// weights.  A degenerate raster yields the magenta fallback.
pub open spec fn bilinear_spec(width: int, height: int, pixels: Seq<Color>, uv: Vec2) -> Color {
    if width == 0 || height == 0 {
        magenta_spec()
    } else {
        let u = crate::fixed::clamp_spec(uv.x as int, 0, FX_ONE as int);
        let v = FX_ONE - crate::fixed::clamp_spec(uv.y as int, 0, FX_ONE as int);
        let px = fx_mul(u, (width - 1) * FX_ONE);
        let py = fx_mul(v, (height - 1) * FX_ONE);
        let ix = px / (FX_ONE as int);
        let iy = py / (FX_ONE as int);
        let fpx = px - ix * FX_ONE;
        let fpy = py - iy * FX_ONE;
        let ix1 = if ix + 1 < width {
            ix + 1
        } else {
            width - 1
        };
        let iy1 = if iy + 1 < height {
            iy + 1
        } else {
            height - 1
        };
        let c00 = pixels[iy * width + ix];
        let c10 = pixels[iy * width + ix1];
        let c01 = pixels[iy1 * width + ix];
        let c11 = pixels[iy1 * width + ix1];
        let w00 = fx_mul(FX_ONE - fpx, FX_ONE - fpy);
        let w10 = fx_mul(fpx, FX_ONE - fpy);
        let w01 = fx_mul(FX_ONE - fpx, fpy);
        let w11 = fx_mul(fpx, fpy);
        Vec3 {
            x: (fx_mul(c00.x as int, w00) + fx_mul(c10.x as int, w10) + fx_mul(c01.x as int, w01)
                + fx_mul(c11.x as int, w11)) as i64,
            y: (fx_mul(c00.y as int, w00) + fx_mul(c10.y as int, w10) + fx_mul(c01.y as int, w01)
                + fx_mul(c11.y as int, w11)) as i64,
            z: (fx_mul(c00.z as int, w00) + fx_mul(c10.z as int, w10) + fx_mul(c01.z as int, w01)
                + fx_mul(c11.z as int, w11)) as i64,
        }
    }
}

impl ImageTexture {
    /// Bilinear raster sample, pinned to `bilinear_spec`; a
    /// degenerate raster yields the conspicuous magenta fallback
    /// rather than a failure.
    pub fn sample_bilinear(&self, uv: &Vec2) -> (r: Color)
        requires
            wf_texture(Texture::Image(ImageTexture { width: self.width, height: self.height, pixels: self.pixels })),
        ensures
            r == bilinear_spec(self.width as int, self.height as int, self.pixels@, *uv),
            self.width == 0 || self.height == 0 ==> r == magenta_spec(),
            vec_bounded(r),
            0 <= r.x && 0 <= r.y && 0 <= r.z,
    {
        if self.width == 0 || self.height == 0 {
            return Vec3 { x: FX_ONE, y: 0, z: FX_ONE };
        }
        let cuv = clamp_vec2(uv, 0, FX_ONE);
        let u = cuv.x;
        let v = FX_ONE - cuv.y;
        let wm1 = (self.width - 1) as i64;
        let hm1 = (self.height - 1) as i64;
        proof {
            lemma_raster_coord(u as int, wm1 as int);
            lemma_raster_coord(v as int, hm1 as int);
        }
        let px = mul_fx(u, wm1 * FX_ONE);
        let py = mul_fx(v, hm1 * FX_ONE);
        let ixs = floor_units(px);
        let iys = floor_units(py);
        let ix = ixs as usize;
        let iy = iys as usize;
        proof {
            vstd::arithmetic::div_mod::lemma_fundamental_div_mod(px as int, FX_ONE as int);
            vstd::arithmetic::div_mod::lemma_mod_bound(px as int, FX_ONE as int);
            vstd::arithmetic::div_mod::lemma_fundamental_div_mod(py as int, FX_ONE as int);
            vstd::arithmetic::div_mod::lemma_mod_bound(py as int, FX_ONE as int);
        }
        let fx = px - ixs * FX_ONE;
        let fy = py - iys * FX_ONE;
        let ix1 = if ix + 1 < self.width {
            ix + 1
        } else {
            self.width - 1
        };
        let iy1 = if iy + 1 < self.height {
            iy + 1
        } else {
            self.height - 1
        };
        proof {
            lemma_raster_index(ix as int, iy as int, self.width as int, self.height as int);
            lemma_raster_index(ix1 as int, iy as int, self.width as int, self.height as int);
            lemma_raster_index(ix as int, iy1 as int, self.width as int, self.height as int);
            lemma_raster_index(ix1 as int, iy1 as int, self.width as int, self.height as int);
        }
        let c00 = self.pixels[iy * self.width + ix];
        let c10 = self.pixels[iy * self.width + ix1];
        let c01 = self.pixels[iy1 * self.width + ix];
        let c11 = self.pixels[iy1 * self.width + ix1];
        proof {
            lemma_weight_bounds(fx as int, fy as int);
        }
        let w00 = mul_fx(FX_ONE - fx, FX_ONE - fy);
        let w10 = mul_fx(fx, FX_ONE - fy);
        let w01 = mul_fx(FX_ONE - fx, fy);
        let w11 = mul_fx(fx, fy);
        proof {
            lemma_weighted_color(c00, w00 as int);
            lemma_weighted_color(c10, w10 as int);
            lemma_weighted_color(c01, w01 as int);
            lemma_weighted_color(c11, w11 as int);
        }
        let x = mul_fx(c00.x, w00) + mul_fx(c10.x, w10) + mul_fx(c01.x, w01) + mul_fx(c11.x, w11);
        let y = mul_fx(c00.y, w00) + mul_fx(c10.y, w10) + mul_fx(c01.y, w01) + mul_fx(c11.y, w11);
        let z = mul_fx(c00.z, w00) + mul_fx(c10.z, w10) + mul_fx(c01.z, w01) + mul_fx(c11.z, w11);
        Vec3 { x, y, z }
    }
}

proof fn lemma_raster_index(ix: int, iy: int, w: int, h: int)
    requires
        0 <= ix < w,
        0 <= iy < h,
        w <= 0x10000,
        h <= 0x10000,
    ensures
        0 <= iy * w + ix < w * h,
        iy * w + ix <= 0x10000 * 0x10000,
{
    assert(0 <= iy * w + ix < w * h && iy * w + ix <= 0x10000 * 0x10000) by (nonlinear_arith)
        requires
            0 <= ix < w,
            0 <= iy < h,
            w <= 0x10000,
            h <= 0x10000,
    ;
}

proof fn lemma_weight_bounds(fx: int, fy: int)
    requires
        0 <= fx < FX_ONE,
        0 <= fy < FX_ONE,
    ensures
        0 <= (FX_ONE - fx) * (FX_ONE - fy) <= FX_ONE as int * FX_ONE as int,
        0 <= fx * (FX_ONE - fy) <= FX_ONE as int * FX_ONE as int,
        0 <= (FX_ONE - fx) * fy <= FX_ONE as int * FX_ONE as int,
        0 <= fx * fy <= FX_ONE as int * FX_ONE as int,
        0 <= fx_mul((FX_ONE - fx) as int, (FX_ONE - fy) as int) <= FX_ONE,
        0 <= fx_mul(fx, (FX_ONE - fy) as int) <= FX_ONE,
        0 <= fx_mul((FX_ONE - fx) as int, fy) <= FX_ONE,
        0 <= fx_mul(fx, fy) <= FX_ONE,
{
    assert(0 <= (FX_ONE - fx) * (FX_ONE - fy) <= FX_ONE as int * FX_ONE as int && 0 <= fx * (
    FX_ONE - fy) <= FX_ONE as int * FX_ONE as int && 0 <= (FX_ONE - fx) * fy <= FX_ONE as int
        * FX_ONE as int && 0 <= fx * fy <= FX_ONE as int * FX_ONE as int) by (nonlinear_arith)
        requires
            0 <= fx < FX_ONE,
            0 <= fy < FX_ONE,
    ;
    lemma_weight_one((FX_ONE - fx) * (FX_ONE - fy));
    lemma_weight_one(fx * (FX_ONE - fy));
    lemma_weight_one((FX_ONE - fx) * fy);
    lemma_weight_one(fx * fy);
}

proof fn lemma_weight_one(p: int)
    requires
        0 <= p <= FX_ONE as int * FX_ONE as int,
    ensures
        0 <= crate::fixed::tdiv(p, FX_ONE as int) <= FX_ONE,
{
    crate::fixed::lemma_tdiv_bound(p, FX_ONE as int);
    vstd::arithmetic::div_mod::lemma_div_pos_is_pos(p, FX_ONE as int);
    vstd::arithmetic::div_mod::lemma_div_is_ordered(
        p,
        FX_ONE as int * FX_ONE as int,
        FX_ONE as int,
    );
    vstd::arithmetic::div_mod::lemma_div_multiples_vanish(FX_ONE as int, FX_ONE as int);
}

proof fn lemma_weighted_color(c: Color, w: int)
    requires
        0 <= w <= FX_ONE,
        in_world_vec(c),
        0 <= c.x && 0 <= c.y && 0 <= c.z,
    ensures
        0 <= fx_mul(c.x as int, w) <= MAX_WORLD,
        0 <= fx_mul(c.y as int, w) <= MAX_WORLD,
        0 <= fx_mul(c.z as int, w) <= MAX_WORLD,
        abs_int(c.x as int * w) <= 0x7fff_ffff_ffff_ffff * (FX_ONE as int),
        abs_int(c.y as int * w) <= 0x7fff_ffff_ffff_ffff * (FX_ONE as int),
        abs_int(c.z as int * w) <= 0x7fff_ffff_ffff_ffff * (FX_ONE as int),
{
    lemma_weighted_channel(c.x as int, w);
    lemma_weighted_channel(c.y as int, w);
    lemma_weighted_channel(c.z as int, w);
}

proof fn lemma_weighted_channel(c: int, w: int)
    requires
        0 <= w <= FX_ONE,
        0 <= c <= MAX_WORLD,
    ensures
        0 <= fx_mul(c, w) <= MAX_WORLD,
        abs_int(c * w) <= 0x7fff_ffff_ffff_ffff * (FX_ONE as int),
{
    assert(0 <= c * w <= MAX_WORLD as int * FX_ONE as int && MAX_WORLD as int * FX_ONE as int
        <= 0x7fff_ffff_ffff_ffff * (FX_ONE as int)) by (nonlinear_arith)
        requires
            0 <= w <= FX_ONE,
            0 <= c <= MAX_WORLD,
            MAX_WORLD == 0x10_0000_0000,
            FX_ONE == 0x100_0000,
    ;
    crate::fixed::lemma_tdiv_bound(c * w, FX_ONE as int);
    vstd::arithmetic::div_mod::lemma_div_pos_is_pos(c * w, FX_ONE as int);
    vstd::arithmetic::div_mod::lemma_div_is_ordered(
        c * w,
        MAX_WORLD as int * FX_ONE as int,
        FX_ONE as int,
    );
    vstd::arithmetic::div_mod::lemma_div_multiples_vanish(MAX_WORLD as int, FX_ONE as int);
}

fn copy_i64(src: &Vec<i64>, dst: &mut Vec<i64>)
    requires
        old(dst).len() == 0,
    ensures
        final(dst)@ == src@,
{
    let mut i: usize = 0;
    let n = src.len();
    while i < n
        invariant
            n == src.len(),
            i <= n,
            dst@ == src@.subrange(0, i as int),
        decreases n - i,
    {
        let c = src[i];
        dst.push(c);
        proof {
            assert(dst@ =~= src@.subrange(0, i as int + 1));
        }
        i = i + 1;
    }
    proof {
        assert(dst@ =~= src@);
    }
}

fn copy_usize(src: &Vec<usize>, dst: &mut Vec<usize>)
    requires
        old(dst).len() == 0,
    ensures
        final(dst)@ == src@,
{
    let mut i: usize = 0;
    let n = src.len();
    while i < n
        invariant
            n == src.len(),
            i <= n,
            dst@ == src@.subrange(0, i as int),
        decreases n - i,
    {
        let c = src[i];
        dst.push(c);
        proof {
            assert(dst@ =~= src@.subrange(0, i as int + 1));
        }
        i = i + 1;
    }
    proof {
        assert(dst@ =~= src@);
    }
}

/// The conspicuous fallback color for degenerate or missing texture
/// data.
pub open spec fn magenta_spec() -> Color {
    Vec3 { x: FX_ONE, y: 0i64, z: FX_ONE }
}

proof fn lemma_raster_coord(u: int, m: int)
    requires
        0 <= u <= FX_ONE,
        0 <= m <= 0x10000,
    ensures
        abs_int(u * (m * FX_ONE)) <= 0x7fff_ffff_ffff_ffff * (FX_ONE as int),
        0 <= fx_mul(u, m * FX_ONE) <= m * FX_ONE,
        fx_mul(u, m * FX_ONE) / (FX_ONE as int) <= m,
        abs_int(m * FX_ONE) <= 0x100_0000_0000_0000,
{
    assert(0 <= u * (m * FX_ONE) <= FX_ONE as int * (m * FX_ONE) && FX_ONE as int * (m * FX_ONE)
        <= 0x7fff_ffff_ffff_ffff * (FX_ONE as int) && m * FX_ONE <= 0x100_0000_0000_0000)
        by (nonlinear_arith)
        requires
            0 <= u <= FX_ONE,
            0 <= m <= 0x10000,
            FX_ONE == 0x100_0000,
    ;
    crate::fixed::lemma_tdiv_bound(u * (m * FX_ONE), FX_ONE as int);
    vstd::arithmetic::div_mod::lemma_div_is_ordered(
        u * (m * FX_ONE),
        FX_ONE as int * (m * FX_ONE),
        FX_ONE as int,
    );
    assert((FX_ONE as int * (m * FX_ONE)) / (FX_ONE as int) == m * FX_ONE) by {
        vstd::arithmetic::div_mod::lemma_div_multiples_vanish(m * FX_ONE, FX_ONE as int);
    }
    vstd::arithmetic::div_mod::lemma_div_is_ordered(
        fx_mul(u, m * FX_ONE),
        m * FX_ONE,
        FX_ONE as int,
    );
    vstd::arithmetic::div_mod::lemma_div_multiples_vanish(m, FX_ONE as int);
    vstd::arithmetic::div_mod::lemma_div_pos_is_pos(fx_mul(u, m * FX_ONE), FX_ONE as int);
}

/// The noise sample, exactly as `sample_noise` computes it: the
/// hashed pool value, amplified and fed through the phase, drives a
/// sine whose value is raised into `[0, 1]` and spread over all
/// three channels.
pub open spec fn noise_sample_spec(n: NoiseTexture, p: Vec3) -> Color {
    let raw = n.perlin.pool[crate::perlin::noise_index(n.perlin, p)];
    let amplified = fx_mul(raw as int, n.power as int);
    let arg = fx_mul(n.scale as int, p.z as int) + fx_mul(amplified, n.phase as int);
    let s = crate::fixed::sin_fx_spec(arg);
    let c = fx_mul((FX_ONE / 2) as int, FX_ONE + s);
    Vec3 { x: c as i64, y: c as i64, z: c as i64 }
}

impl NoiseTexture {
    /// Noise phase-mapped through the sine, pinned to
    /// `noise_sample_spec`: always a color with all channels in
    /// `[0, 1]`.
    pub fn sample_noise(&self, point: &Vec3) -> (r: Color)
        requires
            wf_texture(Texture::Noise(
                NoiseTexture {
                    perlin: self.perlin,
                    scale: self.scale,
                    phase: self.phase,
                    frequency: self.frequency,
                    power: self.power,
                },
            )),
            vec_bounded(*point),
        ensures
            r == noise_sample_spec(
                NoiseTexture {
                    perlin: self.perlin,
                    scale: self.scale,
                    phase: self.phase,
                    frequency: self.frequency,
                    power: self.power,
                },
                *point,
            ),
            0 <= r.x <= FX_ONE && r.y == r.x && r.z == r.x,
    {
        proof {
            lemma_noise_arg_bounds(self.scale as int, self.phase as int, self.power as int, *point);
        }
        let raw = self.perlin.noise(point);
        let amplified = mul_fx(raw, self.power);
        let arg = mul_fx(self.scale, point.z) + mul_fx(amplified, self.phase);
        let s = sin_fx(arg);
        let half = FX_ONE / 2;
        let c = mul_fx(half, FX_ONE + s);
        proof {
            crate::fixed::lemma_tdiv_bound(half as int * (FX_ONE + s) as int, FX_ONE as int);
            assert(0 <= half as int * (FX_ONE + s) as int <= FX_ONE as int * FX_ONE as int)
                by (nonlinear_arith)
                requires
                    0 <= (FX_ONE + s) as int <= 2 * FX_ONE,
                    half == FX_ONE / 2,
                    FX_ONE == 0x100_0000,
            ;
            vstd::arithmetic::div_mod::lemma_div_is_ordered(
                half as int * (FX_ONE + s) as int,
                FX_ONE as int * FX_ONE as int,
                FX_ONE as int,
            );
            vstd::arithmetic::div_mod::lemma_div_multiples_vanish(FX_ONE as int, FX_ONE as int);
            vstd::arithmetic::div_mod::lemma_div_pos_is_pos(
                half as int * (FX_ONE + s) as int,
                FX_ONE as int,
            );
        }
        Vec3 { x: c, y: c, z: c }
    }
}

proof fn lemma_noise_arg_bounds(scale: int, phase: int, power: int, p: Vec3)
    requires
        abs_int(scale) <= 64 * FX_ONE,
        abs_int(phase) <= 16 * FX_ONE,
        abs_int(power) <= 16 * FX_ONE,
        vec_bounded(p),
    ensures
        abs_int(scale * p.z) <= 0x7fff_ffff_ffff_ffff * (FX_ONE as int),
        abs_int(fx_mul(scale, p.z as int)) <= 0x4000_0000_0000,
        forall|raw: int|
            0 <= raw < FX_ONE ==> abs_int(#[trigger] (raw * power)) <= 0x7fff_ffff_ffff_ffff * (
            FX_ONE as int),
        forall|raw: int| 0 <= raw < FX_ONE ==> abs_int(#[trigger] fx_mul(raw, power)) <= 16 * FX_ONE,
        forall|am: int|
            abs_int(am) <= 16 * FX_ONE ==> abs_int(#[trigger] (am * phase)) <= 0x7fff_ffff_ffff_ffff
                * (FX_ONE as int),
        forall|am: int|
            abs_int(am) <= 16 * FX_ONE ==> abs_int(#[trigger] fx_mul(am, phase)) <= 256 * FX_ONE,
{
    assert(abs_int(scale * p.z) <= (64 * FX_ONE) * (8 * MAX_WORLD)) by (nonlinear_arith)
        requires
            abs_int(scale) <= 64 * FX_ONE,
            abs_int(p.z as int) <= 8 * MAX_WORLD,
    ;
    crate::fixed::lemma_tdiv_bound(scale * p.z, FX_ONE as int);
    vstd::arithmetic::div_mod::lemma_div_is_ordered(
        abs_int(scale * p.z),
        (64 * FX_ONE) * (8 * MAX_WORLD),
        FX_ONE as int,
    );
    assert(((64 * FX_ONE) * (8 * MAX_WORLD)) / (FX_ONE as int) == 64 * 8 * MAX_WORLD
        && 64 * 8 * MAX_WORLD <= 0x4000_0000_0000) by (nonlinear_arith)
        requires
            FX_ONE == 0x100_0000,
            MAX_WORLD == 0x10_0000_0000,
    ;
    assert forall|raw: int| 0 <= raw < FX_ONE implies abs_int(#[trigger] (raw * power)) <= 0x7fff_ffff_ffff_ffff
        * (FX_ONE as int) && abs_int(fx_mul(raw, power)) <= 16 * FX_ONE by {
        assert(abs_int(raw * power) <= FX_ONE as int * (16 * FX_ONE)) by (nonlinear_arith)
            requires
                0 <= raw < FX_ONE,
                abs_int(power) <= 16 * FX_ONE,
        ;
        crate::fixed::lemma_tdiv_bound(raw * power, FX_ONE as int);
        vstd::arithmetic::div_mod::lemma_div_is_ordered(
            abs_int(raw * power),
            FX_ONE as int * (16 * FX_ONE),
            FX_ONE as int,
        );
        vstd::arithmetic::div_mod::lemma_div_multiples_vanish(16 * FX_ONE, FX_ONE as int);
    }
    assert forall|am: int| abs_int(am) <= 16 * FX_ONE implies abs_int(#[trigger] (am * phase))
        <= 0x7fff_ffff_ffff_ffff * (FX_ONE as int) && abs_int(fx_mul(am, phase)) <= 256 * FX_ONE by {
        assert(abs_int(am * phase) <= (16 * FX_ONE) * (16 * FX_ONE)) by (nonlinear_arith)
            requires
                abs_int(am) <= 16 * FX_ONE,
                abs_int(phase) <= 16 * FX_ONE,
        ;
        crate::fixed::lemma_tdiv_bound(am * phase, FX_ONE as int);
        vstd::arithmetic::div_mod::lemma_div_is_ordered(
            abs_int(am * phase),
            (16 * FX_ONE) * (16 * FX_ONE),
            FX_ONE as int,
        );
        assert(((16 * FX_ONE) * (16 * FX_ONE)) / (FX_ONE as int) == 256 * FX_ONE)
            by (nonlinear_arith)
            requires
                FX_ONE == 0x100_0000,
        ;
    }
}

} // verus!
