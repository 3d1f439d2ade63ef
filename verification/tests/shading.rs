//! Materials, textures, and the camera integrator.

use ray_tracer_rust::camera::{Camera, CameraSettings, RenderSettings};
use ray_tracer_rust::fixed::{FX_ONE, T_INF};
use ray_tracer_rust::hittable::{HitRecord, Hittable, HittableList};
use ray_tracer_rust::material::{
    Dielectric, DiffuseLight, Isotropic, Lambertian, Material, Metal,
};
use ray_tracer_rust::perlin::Perlin;
use ray_tracer_rust::ray::Ray;
use ray_tracer_rust::rng::RandomSource;
use ray_tracer_rust::sphere::Sphere;
use ray_tracer_rust::texture::{
    CheckerBoard, ImageTexture, NoiseTexture, SolidColor, Texture,
};
use ray_tracer_rust::vector::{Vec2, Vec3};

fn fx(units: i64) -> i64 {
    units * FX_ONE
}

fn v(x: i64, y: i64, z: i64) -> Vec3 {
    Vec3 { x: fx(x), y: fx(y), z: fx(z) }
}

fn surface_record<'a>(ray: &Ray) -> HitRecord<'a> {
    let mut rec = HitRecord::new(ray);
    rec.point = v(0, 0, -1);
    rec.normal = Vec3 { x: 0, y: 0, z: FX_ONE };
    rec.front_face = true;
    rec.uv = Vec2 { x: FX_ONE / 2, y: FX_ONE / 2 };
    rec
}

#[test]
fn solid_color_sample_is_constant() {
    let t = Texture::Solid(SolidColor::new(fx(1), FX_ONE / 2, 0));
    let c = t.sample(&Vec2 { x: 0, y: 0 }, &v(5, -3, 2));
    assert_eq!(c, Vec3 { x: fx(1), y: FX_ONE / 2, z: 0 });
}

#[test]
fn checkerboard_accepts_any_nonzero_scale() {
    let even = Vec3 { x: FX_ONE, y: FX_ONE, z: FX_ONE };
    let odd = Vec3 { x: 0, y: 0, z: 0 };
    // a negative scale flips the reciprocal's sign and still
    // alternates across cells
    let t = Texture::Checker(CheckerBoard::from_colors(-FX_ONE, even, odd));
    let uv = Vec2 { x: 0, y: 0 };
    let a = t.sample(&uv, &Vec3 { x: FX_ONE / 2, y: FX_ONE / 2, z: FX_ONE / 2 });
    let b = t.sample(&uv, &Vec3 { x: 3 * FX_ONE / 2, y: FX_ONE / 2, z: FX_ONE / 2 });
    assert_ne!(a, b);
    // cells narrower than the representable reciprocal saturate
    let tiny = CheckerBoard::from_colors(1, even, odd);
    assert_eq!(tiny.inverse_scale, 256 * FX_ONE);
}

#[test]
fn camera_height_follows_the_aspect_ratio() {
    // width 20 at aspect ratio 2 gives height 10
    let cam = test_camera(20);
    assert_eq!(cam.image_height, 10);
}

#[test]
fn checkerboard_alternates_across_unit_cells() {
    let even = Vec3 { x: FX_ONE, y: FX_ONE, z: FX_ONE };
    let odd = Vec3 { x: 0, y: 0, z: 0 };
    let t = Texture::Checker(CheckerBoard::from_colors(FX_ONE, even, odd));
    let uv = Vec2 { x: 0, y: 0 };
    // floors sum to 0 at (0.5, 0.5, 0.5): even
    let p_even = Vec3 { x: FX_ONE / 2, y: FX_ONE / 2, z: FX_ONE / 2 };
    assert_eq!(t.sample(&uv, &p_even), even);
    // floors sum to 1 at (1.5, 0.5, 0.5): odd
    let p_odd = Vec3 { x: 3 * FX_ONE / 2, y: FX_ONE / 2, z: FX_ONE / 2 };
    assert_eq!(t.sample(&uv, &p_odd), odd);
    // parity flips again two cells over
    let p_even2 = Vec3 { x: 5 * FX_ONE / 2, y: FX_ONE / 2, z: FX_ONE / 2 };
    assert_eq!(t.sample(&uv, &p_even2), even);
}

#[test]
fn image_texture_interpolates_and_falls_back() {
    // 2x1 raster: black then white
    let img = ImageTexture::new(
        2,
        1,
        vec![Vec3 { x: 0, y: 0, z: 0 }, Vec3 { x: FX_ONE, y: FX_ONE, z: FX_ONE }],
    );
    let t = Texture::Image(img);
    let p = v(0, 0, 0);
    let left = t.sample(&Vec2 { x: 0, y: FX_ONE / 2 }, &p);
    let right = t.sample(&Vec2 { x: FX_ONE, y: FX_ONE / 2 }, &p);
    assert!(left.x < FX_ONE / 8);
    assert!(right.x > 7 * FX_ONE / 8);
    let mid = t.sample(&Vec2 { x: FX_ONE / 2, y: FX_ONE / 2 }, &p);
    assert!(mid.x > FX_ONE / 4 && mid.x < 3 * FX_ONE / 4);
    // a degenerate raster yields the conspicuous fallback
    let broken = Texture::Image(ImageTexture::new(0, 0, vec![]));
    let fallback = broken.sample(&Vec2 { x: 0, y: 0 }, &p);
    assert_eq!(fallback, Vec3 { x: FX_ONE, y: 0, z: FX_ONE });
}

#[test]
fn noise_texture_stays_in_unit_range() {
    let t = Texture::Noise(NoiseTexture::new(7, fx(4), fx(2), 4, FX_ONE, fx(1)));
    for i in 0..50 {
        let p = Vec3 { x: fx(i) / 10, y: fx(7 - i) / 9, z: fx(i) / 3 };
        let c = t.sample(&Vec2 { x: 0, y: 0 }, &p);
        assert!(c.x >= 0 && c.x <= FX_ONE);
        assert_eq!(c.x, c.y);
        assert_eq!(c.x, c.z);
    }
}

#[test]
fn perlin_tables_hold_each_index_exactly_once() {
    let mut rng = RandomSource::new(11);
    let p = Perlin::new(&mut rng);
    for table in [&p.perm_x, &p.perm_y, &p.perm_z] {
        let mut seen = vec![false; 256];
        for &i in table.iter() {
            assert!(!seen[i], "index {i} repeated");
            seen[i] = true;
        }
        assert!(seen.iter().all(|b| *b));
    }
}

#[test]
fn perlin_noise_is_deterministic_per_generator() {
    let mut rng = RandomSource::new(11);
    let p = Perlin::new(&mut rng);
    let point = v(1, 2, 3);
    let a = p.noise(&point);
    let b = p.noise(&point);
    assert_eq!(a, b);
    assert!(a >= 0 && a < FX_ONE);
}

#[test]
fn lambertian_scatters_with_texture_attenuation() {
    let m = Material::Lambertian(Lambertian::from_color_components(
        fx(1) / 4,
        fx(1) / 2,
        fx(3) / 4,
    ));
    let ray = Ray { origin: v(0, 0, 0), direction: v(0, 0, -1), time: 0 };
    let mut rec = surface_record(&ray);
    let mut attenuation = Vec3 { x: 0, y: 0, z: 0 };
    let mut scattered = Ray { origin: v(0, 0, 0), direction: v(0, 0, 0), time: 0 };
    let mut rng = RandomSource::new(3);
    assert!(m.scatter(&mut rec, &mut attenuation, &mut scattered, &mut rng));
    assert_eq!(attenuation, Vec3 { x: fx(1) / 4, y: fx(1) / 2, z: fx(3) / 4 });
    assert_eq!(scattered.origin, rec.point);
}

#[test]
fn lambertian_mean_direction_follows_the_normal() {
    let m = Material::Lambertian(Lambertian::from_color_components(fx(1) / 2, fx(1) / 2, fx(1) / 2));
    let ray = Ray { origin: v(0, 0, 0), direction: v(0, 0, -1), time: 0 };
    let mut rng = RandomSource::new(5);
    let mut mean_cos = 0.0f64;
    let samples = 10000;
    for _ in 0..samples {
        let mut rec = surface_record(&ray);
        let mut attenuation = Vec3 { x: 0, y: 0, z: 0 };
        let mut scattered = Ray { origin: v(0, 0, 0), direction: v(0, 0, 0), time: 0 };
        assert!(m.scatter(&mut rec, &mut attenuation, &mut scattered, &mut rng));
        let d = scattered.direction;
        let len = ((d.x as f64).powi(2) + (d.y as f64).powi(2) + (d.z as f64).powi(2)).sqrt();
        assert!(len > 0.0);
        // the normal is +z: accumulate the direction cosine
        mean_cos += d.z as f64 / len;
    }
    mean_cos /= samples as f64;
    // cosine-weighted scattering correlates strongly with the normal
    assert!(mean_cos > 0.3, "mean direction cosine {mean_cos} not aligned with normal");
}

#[test]
fn metal_fuzz_saturates_in_magnitude() {
    let white = Vec3 { x: fx(1), y: fx(1), z: fx(1) };
    let m = Metal::new(white, fx(3));
    assert_eq!(m.fuzz, FX_ONE);
    // a negative fuzz is accepted and kept: it only mirrors the
    // symmetric random perturbation
    let m2 = Metal::new(white, -FX_ONE / 2);
    assert_eq!(m2.fuzz, -FX_ONE / 2);
}

#[test]
fn isotropic_scatters_over_the_whole_sphere() {
    let m = Material::Isotropic(Isotropic::from_color(Vec3 {
        x: FX_ONE / 2,
        y: FX_ONE / 2,
        z: FX_ONE / 2,
    }));
    let ray = Ray { origin: v(0, 0, 0), direction: v(0, 0, -1), time: 0 };
    let mut rng = RandomSource::new(6);
    let mut neg = [false; 3];
    let mut pos = [false; 3];
    for _ in 0..200 {
        let mut rec = surface_record(&ray);
        rec.in_ray = ray;
        let mut attenuation = Vec3 { x: 0, y: 0, z: 0 };
        let mut scattered = Ray { origin: v(0, 0, 0), direction: v(0, 0, 0), time: 0 };
        assert!(m.scatter(&mut rec, &mut attenuation, &mut scattered, &mut rng));
        let d = scattered.direction;
        let comps = [d.x, d.y, d.z];
        for a in 0..3 {
            if comps[a] < 0 {
                neg[a] = true;
            }
            if comps[a] > 0 {
                pos[a] = true;
            }
        }
    }
    // directions fall in every half-space, not one octant
    for a in 0..3 {
        assert!(neg[a] && pos[a], "axis {a} never changed sign");
    }
}

#[test]
fn metal_reflects_about_the_normal() {
    let m = Material::Metal(Metal::new(Vec3 { x: fx(1), y: fx(1), z: fx(1) }, 0));
    // incoming at 45 degrees in the x/z plane onto a +z normal
    let ray = Ray { origin: v(-1, 0, 0), direction: v(1, 0, -1), time: 0 };
    let mut rec = surface_record(&ray);
    rec.in_ray = ray;
    let mut attenuation = Vec3 { x: 0, y: 0, z: 0 };
    let mut scattered = Ray { origin: v(0, 0, 0), direction: v(0, 0, 0), time: 0 };
    let mut rng = RandomSource::new(3);
    assert!(m.scatter(&mut rec, &mut attenuation, &mut scattered, &mut rng));
    let d = scattered.direction;
    // the mirror direction of (1, 0, -1) about +z is (1, 0, 1)
    assert!(d.z > 0);
    assert!(d.x > 0);
    assert!((d.x - d.z).abs() < FX_ONE / 16);
}

#[test]
fn metal_rejects_grazing_reflections_into_the_surface() {
    let m = Material::Metal(Metal::new(Vec3 { x: fx(1), y: fx(1), z: fx(1) }, FX_ONE));
    // incoming almost parallel to the surface: heavy fuzz can push
    // the reflection below the horizon, which must report no scatter
    let ray = Ray { origin: v(-8, 0, 0), direction: Vec3 { x: fx(8), y: 0, z: -FX_ONE / 64 }, time: 0 };
    let mut rng = RandomSource::new(12);
    let mut rejected = false;
    for _ in 0..200 {
        let mut rec = surface_record(&ray);
        rec.in_ray = ray;
        let mut attenuation = Vec3 { x: 0, y: 0, z: 0 };
        let mut scattered = Ray { origin: v(0, 0, 0), direction: v(0, 0, 0), time: 0 };
        let ok = m.scatter(&mut rec, &mut attenuation, &mut scattered, &mut rng);
        if ok {
            // a reported scatter always leaves the surface
            assert!(scattered.direction.z > 0);
        } else {
            rejected = true;
        }
    }
    assert!(rejected, "grazing fuzzing must sometimes be absorbed");
}

#[test]
fn dielectric_normal_incidence_matches_schlick() {
    let glass = Dielectric::new(3 * FX_ONE / 2);
    let refl = glass.reflectance(FX_ONE);
    // Schlick at cosine one is ((1 - 1.5) / (1 + 1.5))^2 = 0.04
    let expected = 0.04f64;
    let got = refl as f64 / FX_ONE as f64;
    assert!(
        (got - expected).abs() < 1e-6,
        "reflectance {got} differs from the Schlick value {expected}"
    );
}

#[test]
fn dielectric_always_scatters_with_unit_attenuation() {
    let m = Material::Dielectric(Dielectric::new(3 * FX_ONE / 2));
    let ray = Ray { origin: v(0, 0, 0), direction: v(0, 0, -1), time: 0 };
    let mut rng = RandomSource::new(4);
    for _ in 0..20 {
        let mut rec = surface_record(&ray);
        rec.in_ray = ray;
        let mut attenuation = Vec3 { x: 0, y: 0, z: 0 };
        let mut scattered = Ray { origin: v(0, 0, 0), direction: v(0, 0, 0), time: 0 };
        assert!(m.scatter(&mut rec, &mut attenuation, &mut scattered, &mut rng));
        assert_eq!(attenuation, Vec3 { x: FX_ONE, y: FX_ONE, z: FX_ONE });
    }
}

#[test]
fn diffuse_light_emits_and_never_scatters() {
    let m = Material::DiffuseLight(DiffuseLight::from_color_components(fx(4), fx(4), fx(4)));
    let ray = Ray { origin: v(0, 0, 0), direction: v(0, 0, -1), time: 0 };
    let mut rec = surface_record(&ray);
    let mut attenuation = Vec3 { x: 0, y: 0, z: 0 };
    let mut scattered = Ray { origin: v(0, 0, 0), direction: v(0, 0, 0), time: 0 };
    let mut rng = RandomSource::new(3);
    assert!(!m.scatter(&mut rec, &mut attenuation, &mut scattered, &mut rng));
    let e = m.emitted(&rec.uv, &rec.point);
    assert_eq!(e, Vec3 { x: fx(4), y: fx(4), z: fx(4) });
    let lambertian = Material::Lambertian(Lambertian::from_color_components(0, 0, 0));
    assert_eq!(
        lambertian.emitted(&rec.uv, &rec.point),
        Vec3 { x: 0, y: 0, z: 0 }
    );
}

fn test_camera(width: usize) -> Camera {
    Camera::new(
        &CameraSettings {
            position: v(0, 0, 0),
            target_position: v(0, 0, -1),
            up_direction: Vec3 { x: 0, y: FX_ONE, z: 0 },
            fov: fx(90),
            defocus_angle: 0,
            focus_dist: fx(1),
            aspect_ratio: 2 * FX_ONE,
            background_color: Vec3 { x: 7 * FX_ONE / 10, y: 8 * FX_ONE / 10, z: FX_ONE },
        },
        &RenderSettings { image_width: width, samples_per_pixel: 4, max_depth: 8 },
    )
}

fn demo_scene() -> Hittable {
    let mut list = HittableList::new();
    list.add(Hittable::Sphere(Sphere::new(
        v(0, 0, -1),
        Vec3 { x: 0, y: 0, z: 0 },
        FX_ONE / 2,
        Material::Lambertian(Lambertian::from_color_components(
            fx(1) / 2,
            fx(1) / 2,
            fx(1) / 2,
        )),
    )));
    list.add(Hittable::Sphere(Sphere::new(
        Vec3 { x: 0, y: -fx(100) - FX_ONE / 2, z: -fx(1) },
        Vec3 { x: 0, y: 0, z: 0 },
        fx(100),
        Material::Lambertian(Lambertian::from_color_components(
            fx(4) / 5,
            fx(4) / 5,
            0,
        )),
    )));
    Hittable::List(list)
}

#[test]
fn ray_color_on_a_pure_light_scene_returns_its_emission() {
    let cam = test_camera(20);
    let mut list = HittableList::new();
    list.add(Hittable::Sphere(Sphere::new(
        v(0, 0, -1),
        Vec3 { x: 0, y: 0, z: 0 },
        FX_ONE / 2,
        Material::DiffuseLight(DiffuseLight::from_color_components(fx(4), fx(4), fx(4))),
    )));
    let scene = Hittable::List(list);
    let mut rng = RandomSource::new(2);
    let ray = Ray { origin: v(0, 0, 0), direction: v(0, 0, -1), time: 0 };
    // a light never scatters: the path ends with exactly the emission
    let c = cam.ray_color(&ray, &scene, 8, &mut rng);
    assert_eq!(c, v(4, 4, 4));
}

#[test]
fn camera_without_defocus_has_a_degenerate_lens_disk() {
    let cam = test_camera(20);
    assert_eq!(cam.defocus_disk_u, Vec3 { x: 0, y: 0, z: 0 });
    assert_eq!(cam.defocus_disk_v, Vec3 { x: 0, y: 0, z: 0 });
}

#[test]
fn ray_color_at_depth_zero_is_black() {
    let cam = test_camera(20);
    let scene = demo_scene();
    let mut rng = RandomSource::new(2);
    let ray = Ray { origin: v(0, 0, 0), direction: v(0, 0, -1), time: 0 };
    let c = cam.ray_color(&ray, &scene, 0, &mut rng);
    assert_eq!(c, Vec3 { x: 0, y: 0, z: 0 });
}

#[test]
fn ray_color_miss_returns_background() {
    let cam = test_camera(20);
    let scene = demo_scene();
    let mut rng = RandomSource::new(2);
    let ray = Ray { origin: v(0, 0, 0), direction: v(0, 1, 0), time: 0 };
    let c = cam.ray_color(&ray, &scene, 8, &mut rng);
    assert_eq!(c, Vec3 { x: 7 * FX_ONE / 10, y: 8 * FX_ONE / 10, z: FX_ONE });
}

#[test]
fn render_is_deterministic_per_seed_and_sees_the_sphere() {
    let cam = test_camera(20);
    let scene = demo_scene();
    let mut rng1 = RandomSource::new(42);
    let first = cam.render(&scene, &mut rng1);
    let mut rng2 = RandomSource::new(42);
    let second = cam.render(&scene, &mut rng2);
    assert_eq!(first.len(), second.len());
    assert_eq!(first.len(), cam.image_width * cam.image_height);
    for (a, b) in first.iter().zip(second.iter()) {
        assert_eq!(a, b);
    }
    // the pixel through the image center crosses the sphere: its
    // averaged color is not the sky background
    let background = {
        let empty = Hittable::List(HittableList::new());
        let mut rng3 = RandomSource::new(42);
        let sky = cam.render(&empty, &mut rng3);
        sky[(cam.image_height / 2) * cam.image_width + cam.image_width / 2]
    };
    let center = first[(cam.image_height / 2) * cam.image_width + cam.image_width / 2];
    assert_ne!(center, background);
    // every channel of every pixel is an 8-bit value
    for p in first.iter() {
        assert!(p.x <= 255 && p.y <= 255 && p.z <= 255);
    }
}

#[test]
fn seeded_streams_are_reproducible() {
    let mut a = RandomSource::new(123);
    let mut b = RandomSource::new(123);
    let mut seen_low = false;
    let mut seen_high = false;
    for _ in 0..100 {
        let x = a.next_in(-50, 900);
        assert_eq!(x, b.next_in(-50, 900));
        assert!(-50 <= x && x < 900);
        if x < 400 {
            seen_low = true;
        } else {
            seen_high = true;
        }
    }
    // the draws spread over the range rather than echoing a bound
    assert!(seen_low && seen_high);
    let mut c = RandomSource::new(124);
    let mut differs = false;
    let mut a2 = RandomSource::new(123);
    for _ in 0..100 {
        if a2.next_in(0, 1 << 30) != c.next_in(0, 1 << 30) {
            differs = true;
        }
    }
    assert!(differs);
}

#[test]
fn material_copies_sample_identically() {
    let checker = Texture::Checker(CheckerBoard::from_colors(
        FX_ONE,
        Vec3 { x: FX_ONE, y: 0, z: 0 },
        Vec3 { x: 0, y: FX_ONE, z: 0 },
    ));
    let copy = checker.dup();
    for i in 0..20 {
        let p = Vec3 { x: i * FX_ONE / 3, y: FX_ONE / 2, z: FX_ONE / 2 };
        let uv = Vec2 { x: 0, y: 0 };
        assert_eq!(checker.sample(&uv, &p), copy.sample(&uv, &p));
    }
}
