use glam::Vec3 as V;
use path_tracer::hittable::{Crossing, Crossings, HitRecord, HittableList, Sphere};
use path_tracer::image::{pixel_at, write_ppm};
use path_tracer::integrator::{bounce, hit_interval, ray_color, Outcome, Step};
use path_tracer::material::{Lambertian, Material};
use path_tracer::scalar::Scalar;
use path_tracer::vec3::{random_in_unit_sphere, write_color, Vec3};
use rand::rngs::StdRng;
use rand::{Rng, SeedableRng};

fn s(x: f32) -> Scalar {
    Scalar::from_bits(x.to_bits())
}

fn f(x: Scalar) -> f32 {
    f32::from_bits(x.to_bits())
}

fn enc(v: V) -> Vec3 {
    Vec3::new(s(v.x), s(v.y), s(v.z))
}

fn dec(v: Vec3) -> V {
    V::new(f(v.x), f(v.y), f(v.z))
}

fn crossing(sphere: &Sphere, origin: V, direction: V, t: f32) -> Crossing {
    let p = origin + t * direction;
    let outward_normal = (p - dec(sphere.center)) / f(sphere.radius);
    Crossing { t: s(t), p: enc(p), outward_normal: enc(outward_normal), facing: s(direction.dot(outward_normal)) }
}

fn solve(sphere: &Sphere, origin: V, direction: V) -> Crossings {
    let oc = origin - dec(sphere.center);
    let a = direction.length_squared();
    let half_b = oc.dot(direction);
    let c = oc.length_squared() - f(sphere.radius) * f(sphere.radius);
    let discriminant = half_b * half_b - a * c;
    let sqrtd = discriminant.sqrt();
    Crossings {
        discriminant: s(discriminant),
        near: crossing(sphere, origin, direction, (-half_b - sqrtd) / a),
        far: crossing(sphere, origin, direction, (-half_b + sqrtd) / a),
    }
}

fn scene_hit(world: &HittableList, origin: V, direction: V) -> Option<HitRecord> {
    let mut all = vec![];
    for i in 0..world.len() {
        all.push(solve(world.get(i).unwrap(), origin, direction));
    }
    let (t_min, t_max) = hit_interval();
    world.hit(&all, t_min, t_max)
}

fn random_unit_vector(rng: &mut StdRng) -> V {
    loop {
        let p = V::new(rng.gen_range(-1.0..1.0), rng.gen_range(-1.0..1.0), rng.gen_range(-1.0..1.0));
        if let Some(kept) = random_in_unit_sphere(enc(p), s(p.length_squared())) {
            let kept = dec(kept);
            return kept / kept.length();
        }
    }
}

fn background(direction: V) -> V {
    let unit = direction / direction.length();
    let t = 0.5 * (unit.y + 1.0);
    (1.0 - t) * V::new(1.0, 1.0, 1.0) + t * V::new(0.5, 0.7, 1.0)
}

/// The light along a ray through a scene of matte spheres.
fn light(world: &HittableList, origin: V, direction: V, depth: i32, rng: &mut StdRng) -> V {
    let left = match ray_color(depth) {
        Step::Trace { depth } => depth,
        Step::Black => return V::ZERO,
        Step::Background => return background(direction),
    };
    let mut attenuation = V::ONE;
    let mut scattered = (origin, direction);
    let outcome = match scene_hit(world, origin, direction) {
        None => Outcome::Missed,
        Some(rec) => match rec.material {
            Material::Lambertian(matte) => {
                let bounce = dec(rec.normal) + random_unit_vector(rng);
                match matte.scatter(&rec, enc(bounce)) {
                    Some(model) => {
                        attenuation = dec(model.attenuation);
                        scattered = (dec(model.scattered.origin), dec(model.scattered.direction));
                        Outcome::Scattered
                    }
                    None => Outcome::Absorbed,
                }
            }
            _ => Outcome::Absorbed,
        },
    };
    match bounce(left, outcome) {
        Step::Black => V::ZERO,
        Step::Background => background(direction),
        Step::Trace { depth } => attenuation * light(world, scattered.0, scattered.1, depth, rng),
    }
}

struct Picture {
    width: i32,
    height: i32,
    buf: Vec<u8>,
}

impl Picture {
    fn pixel(&self, i: i32, j: i32) -> (u8, u8, u8) {
        let at = 3 * (((self.height - 1 - j) * self.width + i) as usize);
        (self.buf[at], self.buf[at + 1], self.buf[at + 2])
    }
}

/// One sphere of radius 0.5 at (0, 0, -1), seen through the plain camera: the
/// eye at the origin, the viewport two units high and one unit ahead.
fn render(width: i32, height: i32, samples: i32, depth: i32) -> Picture {
    let mut world = HittableList::new();
    let matte = Material::Lambertian(Lambertian::new(enc(V::new(0.5, 0.5, 0.5))));
    world.add(Sphere::new(enc(V::new(0.0, 0.0, -1.0)), s(0.5), matte));

    let aspect_ratio = 16.0 / 9.0;
    let viewport_height = 2.0;
    let viewport_width = aspect_ratio * viewport_height;
    let origin = V::ZERO;
    let horizontal = V::new(viewport_width, 0.0, 0.0);
    let vertical = V::new(0.0, viewport_height, 0.0);
    let lower_left_corner = origin - horizontal / 2.0 - vertical / 2.0 - V::new(0.0, 0.0, 1.0);

    let mut rng = StdRng::seed_from_u64(2020);
    let mut buf = vec![];
    let mut index = 0;
    while let Some((i, j)) = pixel_at(index, width, height) {
        let mut sum = V::ZERO;
        for _ in 0..samples {
            let u = (i as f32 + rng.gen::<f32>()) / (width - 1) as f32;
            let v = (j as f32 + rng.gen::<f32>()) / (height - 1) as f32;
            let direction = lower_left_corner + u * horizontal + v * vertical - origin;
            sum += light(&world, origin, direction, depth, &mut rng);
        }
        let scale = 1.0 / samples as f32;
        let gamma = V::new((scale * sum.x).sqrt(), (scale * sum.y).sqrt(), (scale * sum.z).sqrt());
        let (r, g, b) = write_color(enc(gamma));
        buf.push(r);
        buf.push(g);
        buf.push(b);
        index += 1;
    }
    Picture { width, height, buf }
}

#[test]
fn a_ray_that_hits_nothing_brings_the_sky() {
    let mut rng = StdRng::seed_from_u64(1);
    let mut world = HittableList::new();
    let down = V::new(0.0, -1.0, 0.0);
    let up = V::new(0.0, 1.0, 0.0);
    // straight down the gradient is white, straight up it is sky blue
    assert_eq!(light(&world, V::ZERO, down, 10, &mut rng), V::new(1.0, 1.0, 1.0));
    assert_eq!(light(&world, V::ZERO, up, 10, &mut rng), V::new(0.5, 0.7, 1.0));
    // a sphere that the ray passes by changes nothing
    let matte = Material::Lambertian(Lambertian::new(enc(V::new(0.5, 0.5, 0.5))));
    world.add(Sphere::new(enc(V::new(0.0, 0.0, -1.0)), s(0.5), matte));
    assert_eq!(light(&world, V::ZERO, down, 10, &mut rng), V::new(1.0, 1.0, 1.0));
    assert_eq!(light(&world, V::ZERO, up, 1, &mut rng), V::new(0.5, 0.7, 1.0));
    // and with no bounce left the sky is not looked at
    assert_eq!(light(&world, V::ZERO, up, 0, &mut rng), V::ZERO);
}

#[test]
fn the_sphere_is_darker_than_the_sky() {
    let picture = render(32, 18, 1, 1);
    assert_eq!(picture.buf.len(), 3 * 32 * 18);
    let centre = picture.pixel(16, 9);
    // with one bounce the scattered ray brings nothing back
    assert_eq!(centre, (0, 0, 0));
    for (i, j) in [(0, 0), (31, 0), (0, 17), (31, 17), (0, 9), (31, 9), (16, 0), (16, 17)] {
        let edge = picture.pixel(i, j);
        assert!(edge.0 > centre.0 && edge.1 > centre.1 && edge.2 > centre.2);
        // the sky runs from white to blue: blue is the strongest channel, and never dim
        assert!(edge.2 >= edge.1 && edge.1 >= edge.0);
        assert!(edge.0 >= 181);
    }
}

#[test]
fn the_sphere_is_lit_by_the_sky_after_a_bounce() {
    let picture = render(32, 18, 4, 8);
    let centre = picture.pixel(16, 9);
    let sky = picture.pixel(16, 17);
    assert!(centre.2 > 0);
    assert!(centre.0 < sky.0 && centre.1 < sky.1 && centre.2 < sky.2);
}

#[test]
fn without_depth_the_picture_is_black() {
    let picture = render(8, 4, 2, 0);
    assert_eq!(picture.buf, vec![0u8; 3 * 8 * 4]);
}

#[test]
fn the_picture_is_written_as_a_pixel_map() {
    let picture = render(4, 2, 1, 1);
    let text = String::from_utf8(write_ppm(&picture.buf, picture.width, picture.height)).unwrap();
    let mut lines = text.lines();
    assert_eq!(lines.next(), Some("P3"));
    assert_eq!(lines.next(), Some("4 2"));
    assert_eq!(lines.next(), Some("255"));
    let mut rows = 0;
    for (k, line) in lines.enumerate() {
        let want = format!("{} {} {}", picture.buf[3 * k], picture.buf[3 * k + 1], picture.buf[3 * k + 2]);
        assert_eq!(line, want);
        rows += 1;
    }
    assert_eq!(rows, 8);
    assert!(text.ends_with('\n'));
}
