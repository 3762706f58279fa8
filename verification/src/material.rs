//! Materials: what a surface does with a ray that strikes it.
//!
//! A material either absorbs the ray or sends it on, in a new direction and
//! dimmed by the material's colour. The directions a ray might take are sums
//! and products that the caller works out; which of them it takes, and whether
//! it goes on at all, is decided here.

use crate::hittable::HitRecord;
use crate::ray::Ray;
use crate::scalar::{Scalar, ONE_BITS};
use crate::vec3::{near_zero, near_zero_spec, Color, Vec3};
use vstd::prelude::*;

verus! {

/// A ray that a surface has sent on, and the colour by which the light that
/// comes back along it is multiplied.
#[derive(Clone, Copy, Debug, PartialEq, Eq, Structural)]
pub struct ScatterModel {
    pub attenuation: Color,
    pub scattered: Ray,
}

/// A matte surface of the given colour.
#[derive(Clone, Copy, Debug, PartialEq, Eq, Structural)]
pub struct Lambertian {
    pub albedo: Color,
}

/// A mirror of the given colour, blurred by `fuzziness`.
#[derive(Clone, Copy, Debug, PartialEq, Eq, Structural)]
pub struct Metal {
    pub albedo: Color,
    pub fuzziness: Scalar,
}

/// Clear glass with the refractive index `ir`.
#[derive(Clone, Copy, Debug, PartialEq, Eq, Structural)]
pub struct Dielectric {
    pub ir: Scalar,
}

/// The material of a surface.
#[derive(Clone, Copy, Debug, PartialEq, Eq, Structural)]
pub enum Material {
    Lambertian(Lambertian),
    Metal(Metal),
    Dielectric(Dielectric),
}

impl Lambertian {
    /// A matte surface that reflects `albedo`.
    pub fn new(albedo: Color) -> (r: Lambertian)
        ensures
            r.albedo == albedo,
    {
        Lambertian { albedo }
    }

    /// The direction in which a matte surface sends a ray on: `bounce`, the sum
    /// of the surface normal and a random unit vector, unless that sum is near
    /// zero, in which case the normal itself.
    pub open spec fn direction_spec(normal: Vec3, bounce: Vec3) -> Vec3 {
        if near_zero_spec(bounce) {
            normal
        } else {
            bounce
        }
    }

    /// A matte surface always scatters. The new ray starts at the point that
    /// was hit and goes along `bounce`, the sum of the surface normal and a
    /// random unit vector; where the two nearly cancel, it goes along the
    /// normal instead. The light is multiplied by the albedo.
    pub fn scatter(&self, rec: &HitRecord, bounce: Vec3) -> (r: Option<ScatterModel>)
        ensures
            r == Some(
                ScatterModel {
                    attenuation: self.albedo,
                    scattered: Ray {
                        origin: rec.p,
                        direction: Self::direction_spec(rec.normal, bounce),
                    },
                },
            ),
    {
        let mut scatter_direction = bounce;
        if near_zero(scatter_direction) {
            scatter_direction = rec.normal;
        }
        Some(ScatterModel { attenuation: self.albedo, scattered: Ray::new(rec.p, scatter_direction) })
    }
}

impl Metal {
    /// A mirror that reflects `albedo`; the larger `fuzziness`, the blurrier.
    pub fn new(albedo: Color, fuzziness: Scalar) -> (r: Metal)
        ensures
            r.albedo == albedo,
            r.fuzziness == fuzziness,
    {
        Metal { albedo, fuzziness }
    }

    /// A mirror scatters exactly when the reflected direction, after it has
    /// been blurred, still points away from the surface: when `facing`, the dot
    /// product of `fuzzed` and the surface normal, is above zero. Otherwise the
    /// ray is absorbed. `fuzzed` is the mirror image of the incoming direction
    /// plus `fuzziness` times a random point of the unit sphere.
    pub fn scatter(&self, rec: &HitRecord, fuzzed: Vec3, facing: Scalar) -> (r: Option<
        ScatterModel,
    >)
        ensures
            r == if facing.gt_spec(Scalar { bits: 0 }) {
                Some(
                    ScatterModel {
                        attenuation: self.albedo,
                        scattered: Ray { origin: rec.p, direction: fuzzed },
                    },
                )
            } else {
                None
            },
    {
        let scattered = Ray::new(rec.p, fuzzed);
        let attenuation = self.albedo;
        if facing.gt(Scalar::zero()) {
            return Some(ScatterModel { attenuation, scattered });
        }
        None
    }
}

impl Dielectric {
    /// Glass with the refractive index `ir`.
    pub fn new(ir: Scalar) -> (r: Dielectric)
        ensures
            r.ir == ir,
    {
        Dielectric { ir }
    }

    /// The ratio of the refractive indices on the two sides of the surface, in
    /// the order in which the ray meets them: for a ray that enters through
    /// the front face, `reciprocal`, which is one over the index; for a ray
    /// that leaves, the index itself.
    pub fn refraction_ratio(&self, front_face: bool, reciprocal: Scalar) -> (r: Scalar)
        ensures
            r == if front_face {
                reciprocal
            } else {
                self.ir
            },
    {
        if front_face {
            reciprocal
        } else {
            self.ir
        }
    }

    /// Whether no refracted ray exists: whether `sine_ratio`, the refraction
    /// ratio times the sine of the angle of incidence, is above one.
    pub open spec fn cannot_refract_spec(sine_ratio: Scalar) -> bool {
        sine_ratio.gt_spec(Scalar { bits: ONE_BITS })
    }

    /// Whether the ray is reflected rather than refracted: always under total
    /// internal reflection, and otherwise when the reflectance is above the
    /// number that was drawn.
    pub open spec fn reflects_spec(sine_ratio: Scalar, reflectance: Scalar, draw: Scalar) -> bool {
        Self::cannot_refract_spec(sine_ratio) || reflectance.gt_spec(draw)
    }

    /// Whether the surface reflects the ray totally, so that no random number
    /// need be drawn to decide between reflection and refraction.
    pub fn cannot_refract(sine_ratio: Scalar) -> (r: bool)
        ensures
            r == Self::cannot_refract_spec(sine_ratio),
    {
        sine_ratio.gt(Scalar::one())
    }

    /// Glass always scatters, and dims nothing. The new ray starts at the point
    /// that was hit. It goes along `reflected` where `sine_ratio` is above one
    /// (total internal reflection), and also where `reflectance`, Schlick's
    /// approximation for this angle, is above `draw`, a random number from
    /// zero to one; otherwise along `refracted`. Under total internal
    /// reflection `draw` is not looked at.
    pub fn scatter(
        &self,
        rec: &HitRecord,
        sine_ratio: Scalar,
        reflectance: Scalar,
        draw: Scalar,
        reflected: Vec3,
        refracted: Vec3,
    ) -> (r: Option<ScatterModel>)
        ensures
            r == Some(
                ScatterModel {
                    attenuation: Vec3 {
                        x: Scalar { bits: ONE_BITS },
                        y: Scalar { bits: ONE_BITS },
                        z: Scalar { bits: ONE_BITS },
                    },
                    scattered: Ray {
                        origin: rec.p,
                        direction: if Self::reflects_spec(sine_ratio, reflectance, draw) {
                            reflected
                        } else {
                            refracted
                        },
                    },
                },
            ),
            Self::cannot_refract_spec(sine_ratio) ==> r.unwrap().scattered.direction == reflected,
    {
        let attenuation = Vec3::one();
        let direction = if Self::cannot_refract(sine_ratio) || reflectance.gt(draw) {
            reflected
        } else {
            refracted
        };
        let scattered = Ray::new(rec.p, direction);
        Some(ScatterModel { attenuation, scattered })
    }
}

} // verus!
