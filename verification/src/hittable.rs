//! Spheres, scenes of spheres, and the choice of the hit that a ray sees.
//!
//! Where a ray crosses a sphere is the solution of a quadratic, and the caller
//! solves it. Which of the two crossings counts, on which side of the surface
//! it lies, and which sphere of a scene the ray reaches first is chosen here.

use crate::material::Material;
use crate::scalar::Scalar;
use crate::vec3::{Point3, Vec3};
use vstd::prelude::*;

verus! {

/// What a ray found where it struck a surface.
#[derive(Clone, Copy, Debug, PartialEq, Eq, Structural)]
pub struct HitRecord {
    /// Where the ray struck.
    pub p: Point3,
    /// The surface normal there, turned against the ray.
    pub normal: Vec3,
    /// The ray's parameter there.
    pub t: Scalar,
    /// Whether the ray came from outside the surface.
    pub front_face: bool,
    /// What the surface is made of.
    pub material: Material,
}

/// One place where a ray's line crosses a sphere.
#[derive(Clone, Copy, Debug, PartialEq, Eq, Structural)]
pub struct Crossing {
    /// The root of the quadratic: the ray's parameter at the crossing.
    pub t: Scalar,
    /// The point at that parameter.
    pub p: Point3,
    /// The normal there that points out of the sphere.
    pub outward_normal: Vec3,
    /// The dot product of the ray's direction and the outward normal.
    pub facing: Scalar,
}

/// The quadratic that a ray and a sphere form, solved: its discriminant and
/// its two roots, the smaller one first.
#[derive(Clone, Copy, Debug, PartialEq, Eq, Structural)]
pub struct Crossings {
    pub discriminant: Scalar,
    pub near: Crossing,
    pub far: Crossing,
}

/// A sphere.
#[derive(Clone, Copy, Debug, PartialEq, Eq, Structural)]
pub struct Sphere {
    pub center: Point3,
    pub radius: Scalar,
    pub material: Material,
}

/// An ordered collection of spheres.
#[derive(Debug)]
pub struct HittableList {
    objects: Vec<Sphere>,
}

/// Whether a ray meets a surface from outside: whether the dot product of its
/// direction and the outward normal is below zero.
pub open spec fn front_face_spec(facing: Scalar) -> bool {
    facing.lt_spec(Scalar { bits: 0 })
}

/// The outward normal turned against the ray: as it is where the ray comes
/// from outside, reversed where it comes from inside.
pub open spec fn face_normal_spec(facing: Scalar, outward_normal: Vec3) -> Vec3 {
    if front_face_spec(facing) {
        outward_normal
    } else {
        outward_normal.neg_spec()
    }
}

/// The dot product of a ray's direction and the normal of a record, from
/// `facing`, the dot product of the direction and the outward normal: as
/// products and sums of binary32 numbers change sign with one of their
/// factors, it is `facing` where the normal was kept and the opposite of
/// `facing` where the normal was reversed.
pub open spec fn facing_after_spec(facing: Scalar) -> Scalar {
    if front_face_spec(facing) {
        facing
    } else {
        facing.neg_spec()
    }
}

/// The normal of a record is turned against the ray: the dot product of the
/// ray's direction and that normal is never above zero, and where it is a
/// number it is at or below zero.
pub proof fn lemma_face_normal_opposes_ray(facing: Scalar)
    ensures
        !facing_after_spec(facing).gt_spec(Scalar { bits: 0 }),
        !facing.is_nan_spec() ==> facing_after_spec(facing).le_spec(Scalar { bits: 0 }),
        front_face_spec(facing) ==> facing_after_spec(facing).lt_spec(Scalar { bits: 0 }),
{
}

impl HitRecord {
    /// The record with the given fields.
    pub fn new(p: Point3, normal: Vec3, t: Scalar, front_face: bool, material: Material) -> (r:
        HitRecord)
        ensures
            r == (HitRecord { p, normal, t, front_face, material }),
    {
        HitRecord { p, normal, t, front_face, material }
    }

    /// Sets `front_face` and `normal` from the outward normal and from
    /// `facing`, the dot product of the ray's direction and that normal: the
    /// ray came from outside exactly when `facing` is below zero, and the
    /// normal that is stored is the outward normal turned against the ray.
    pub fn set_face_normal(&mut self, facing: Scalar, outward_normal: &Vec3)
        ensures
            final(self).front_face == front_face_spec(facing),
            final(self).normal == face_normal_spec(facing, *outward_normal),
            final(self).p == old(self).p,
            final(self).t == old(self).t,
            final(self).material == old(self).material,
    {
        self.front_face = facing.lt(Scalar::zero());
        self.normal = if self.front_face {
            *outward_normal
        } else {
            outward_normal.neg()
        };
    }
}

impl Crossings {
    /// Whether the roots come in order: whether the far root is not below the
    /// near one. A solver that divides by a positive leading coefficient
    /// delivers them so.
    pub open spec fn ordered(self) -> bool {
        !self.far.t.lt_spec(self.near.t)
    }
}

impl Sphere {
    /// The sphere around `center` with the given radius and material.
    pub fn new(center: Point3, radius: Scalar, material: Material) -> (r: Sphere)
        ensures
            r == (Sphere { center, radius, material }),
    {
        Sphere { center, radius, material }
    }

    /// The record of a hit at the given crossing.
    pub open spec fn record_spec(self, crossing: Crossing) -> HitRecord {
        HitRecord {
            p: crossing.p,
            normal: face_normal_spec(crossing.facing, crossing.outward_normal),
            t: crossing.t,
            front_face: front_face_spec(crossing.facing),
            material: self.material,
        }
    }

    /// The hit of a ray on the sphere within the interval from `t_min` to
    /// `t_max`: none where the discriminant is below zero; else at the near
    /// root where that lies in the interval; else at the far root where that
    /// does; else none.
    pub open spec fn hit_spec(self, crossings: Crossings, t_min: Scalar, t_max: Scalar) -> Option<
        HitRecord,
    > {
        if crossings.discriminant.lt_spec(Scalar { bits: 0 }) {
            None
        } else if crossings.near.t.within_spec(t_min, t_max) {
            Some(self.record_spec(crossings.near))
        } else if crossings.far.t.within_spec(t_min, t_max) {
            Some(self.record_spec(crossings.far))
        } else {
            None
        }
    }

    /// Where a ray hits the sphere, if it does so at a parameter from `t_min`
    /// to `t_max`. `crossings` is the quadratic of the ray and the sphere,
    /// solved. The nearer crossing is taken if it lies in the interval, the
    /// farther one if only that does; a ray that starts inside the sphere
    /// hits it from within. The normal of the record is turned against the
    /// ray.
    pub fn hit(&self, crossings: &Crossings, t_min: Scalar, t_max: Scalar) -> (r: Option<
        HitRecord,
    >)
        ensures
            r == self.hit_spec(*crossings, t_min, t_max),
            r matches Some(h) ==> h.t.within_spec(t_min, t_max),
            r matches Some(h) ==> h.material == self.material,
    {
        if crossings.discriminant.lt(Scalar::zero()) {
            return None;
        }
        let mut root = crossings.near;
        if !root.t.within(t_min, t_max) {
            root = crossings.far;
            if !root.t.within(t_min, t_max) {
                return None;
            }
        }
        let mut rec = HitRecord {
            p: root.p,
            normal: root.outward_normal,
            t: root.t,
            front_face: false,
            material: self.material,
        };
        rec.set_face_normal(root.facing, &root.outward_normal);
        Some(rec)
    }
}

/// Whether the roots of every quadratic come in order.
pub open spec fn all_ordered(crossings: Seq<Crossings>) -> bool {
    forall|i: int| 0 <= i < crossings.len() ==> (#[trigger] crossings[i]).ordered()
}

/// The upper end of the interval in which the next member of a scene is
/// looked at: the parameter of the closest hit so far, or `t_max` where
/// nothing has been hit yet.
pub open spec fn limit_spec(closest: Option<HitRecord>, t_max: Scalar) -> Scalar {
    match closest {
        Some(h) => h.t,
        None => t_max,
    }
}

/// The closest hit so far, after one more member has been looked at: the
/// member's hit where it is the first or strictly closer, else the hit that
/// was there.
pub open spec fn closer_spec(closest: Option<HitRecord>, found: Option<HitRecord>) -> Option<
    HitRecord,
> {
    match found {
        None => closest,
        Some(h) => match closest {
            None => found,
            Some(c) => if h.t.lt_spec(c.t) {
                found
            } else {
                closest
            },
        },
    }
}

/// The hit of member `i` of a scene, looked at alone, within the interval from
/// `t_min` to `t_max`. A member for which no crossings are given is not hit.
pub open spec fn member_hit(
    objects: Seq<Sphere>,
    crossings: Seq<Crossings>,
    i: int,
    t_min: Scalar,
    t_max: Scalar,
) -> Option<HitRecord> {
    if i < crossings.len() {
        objects[i].hit_spec(crossings[i], t_min, t_max)
    } else {
        None
    }
}

/// The closest hit among the first `n` members of a scene: the members are
/// looked at in order, each within the interval that ends at the closest hit
/// so far.
pub open spec fn closest_hit(
    objects: Seq<Sphere>,
    crossings: Seq<Crossings>,
    n: nat,
    t_min: Scalar,
    t_max: Scalar,
) -> Option<HitRecord>
    decreases n,
{
    if n == 0 {
        None
    } else {
        let closest = closest_hit(objects, crossings, (n - 1) as nat, t_min, t_max);
        closer_spec(
            closest,
            member_hit(objects, crossings, n - 1, t_min, limit_spec(closest, t_max)),
        )
    }
}

impl View for HittableList {
    type V = Seq<Sphere>;

    closed spec fn view(&self) -> Seq<Sphere> {
        self.objects@
    }
}

impl HittableList {
    /// The empty scene.
    pub fn new() -> (r: HittableList)
        ensures
            r@ == Seq::<Sphere>::empty(),
    {
        HittableList { objects: Vec::new() }
    }

    /// Removes every member.
    pub fn clear(&mut self)
        ensures
            final(self)@ == Seq::<Sphere>::empty(),
    {
        self.objects.clear();
    }

    /// Adds a member at the end.
    pub fn add(&mut self, object: Sphere)
        ensures
            final(self)@ == old(self)@.push(object),
    {
        self.objects.push(object);
    }

    /// How many members the scene has.
    pub fn len(&self) -> (r: usize)
        ensures
            r == self@.len(),
    {
        self.objects.len()
    }

    /// Member `i`, if the scene has that many.
    pub fn get(&self, i: usize) -> (r: Option<&Sphere>)
        ensures
            r == if i < self@.len() {
                Some(&self@[i as int])
            } else {
                None
            },
    {
        if i < self.objects.len() {
            Some(&self.objects[i])
        } else {
            None
        }
    }

    /// The closest hit of a ray on the scene at a parameter from `t_min` to
    /// `t_max`. `crossings` holds, for each member in order, the quadratic of
    /// the ray and that member, solved; a member for which it holds none is
    /// passed over. A later member replaces an earlier one only where it is
    /// strictly closer.
    ///
    /// Nothing is reported exactly when no member is hit within the interval.
    /// What is reported lies in the interval, and no member is hit nearer.
    /// Where the roots of every quadratic come in order, it is the hit of one
    /// of the members looked at alone.
    pub fn hit(&self, crossings: &Vec<Crossings>, t_min: Scalar, t_max: Scalar) -> (r: Option<
        HitRecord,
    >)
        ensures
            r == closest_hit(self@, crossings@, self@.len(), t_min, t_max),
            r matches Some(h) ==> h.t.within_spec(t_min, t_max),
            r is None <==> forall|i: int|
                0 <= i < self@.len() ==> (#[trigger] member_hit(self@, crossings@, i, t_min, t_max))
                    is None,
            r matches Some(h) ==> forall|i: int|
                0 <= i < self@.len() ==> ((#[trigger] member_hit(
                    self@,
                    crossings@,
                    i,
                    t_min,
                    t_max,
                )) matches Some(m) ==> h.t.le_spec(m.t)),
            r is Some && all_ordered(crossings@) ==> exists|i: int|
                0 <= i < self@.len() && #[trigger] member_hit(self@, crossings@, i, t_min, t_max)
                    == r,
    {
        proof {
            lemma_closest_hit_misses(self@, crossings@, self@.len(), t_min, t_max);
            lemma_closest_hit_is_nearest(self@, crossings@, self@.len(), t_min, t_max);
            if closest_hit(self@, crossings@, self@.len(), t_min, t_max) is Some && all_ordered(
                crossings@,
            ) {
                let i = lemma_closest_hit_is_a_member_hit(
                    self@,
                    crossings@,
                    self@.len(),
                    t_min,
                    t_max,
                );
                assert(member_hit(self@, crossings@, i, t_min, t_max) == closest_hit(
                    self@,
                    crossings@,
                    self@.len(),
                    t_min,
                    t_max,
                ));
            }
        }
        let mut closest_hit: Option<HitRecord> = None;
        let mut closest_so_far = t_max;
        let mut i: usize = 0;
        while i < self.objects.len()
            invariant
                i <= self.objects.len(),
                closest_hit == self::closest_hit(self.objects@, crossings@, i as nat, t_min, t_max),
                closest_so_far == limit_spec(closest_hit, t_max),
                closest_hit matches Some(h) ==> h.t.within_spec(t_min, t_max),
            decreases self.objects.len() - i,
        {
            if i < crossings.len() {
                if let Some(hit) = self.objects[i].hit(&crossings[i], t_min, closest_so_far) {
                    if closest_hit.is_none() || hit.t.lt(closest_so_far) {
                        closest_so_far = hit.t;
                        closest_hit = Some(hit);
                    }
                }
            }
            i += 1;
        }
        closest_hit
    }
}

/// A scene reports no hit exactly when no member, looked at alone, is hit
/// within the interval.
pub proof fn lemma_closest_hit_misses(
    objects: Seq<Sphere>,
    crossings: Seq<Crossings>,
    n: nat,
    t_min: Scalar,
    t_max: Scalar,
)
    ensures
        closest_hit(objects, crossings, n, t_min, t_max) is None <==> forall|i: int|
            0 <= i < n ==> (#[trigger] member_hit(objects, crossings, i, t_min, t_max)) is None,
    decreases n,
{
    if n > 0 {
        let before = (n - 1) as nat;
        lemma_closest_hit_misses(objects, crossings, before, t_min, t_max);
        lemma_closest_hit_is_nearest(objects, crossings, before, t_min, t_max);
        let closest = closest_hit(objects, crossings, before, t_min, t_max);
        if closest is None {
            assert(member_hit(objects, crossings, n - 1, t_min, limit_spec(closest, t_max))
                == member_hit(objects, crossings, n - 1, t_min, t_max));
        } else {
            // a member before this one is hit: the hypothesis on the right fails
            let i = choose|i: int|
                0 <= i < before && !((#[trigger] member_hit(objects, crossings, i, t_min, t_max))
                    is None);
            assert(!(member_hit(objects, crossings, i, t_min, t_max) is None));
        }
    }
}

/// The hit that a scene reports lies in the interval, and no member, looked at
/// alone, is hit nearer: the report is of the nearest crossing in the scene.
pub proof fn lemma_closest_hit_is_nearest(
    objects: Seq<Sphere>,
    crossings: Seq<Crossings>,
    n: nat,
    t_min: Scalar,
    t_max: Scalar,
)
    ensures
        closest_hit(objects, crossings, n, t_min, t_max) matches Some(h) ==> {
            &&& h.t.within_spec(t_min, t_max)
            &&& forall|i: int|
                0 <= i < n ==> ((#[trigger] member_hit(objects, crossings, i, t_min, t_max))
                    matches Some(m) ==> h.t.le_spec(m.t))
        },
    decreases n,
{
    if n > 0 {
        let before = (n - 1) as nat;
        lemma_closest_hit_is_nearest(objects, crossings, before, t_min, t_max);
        lemma_closest_hit_misses(objects, crossings, before, t_min, t_max);
        let closest = closest_hit(objects, crossings, before, t_min, t_max);
        let limit = limit_spec(closest, t_max);
        let found = member_hit(objects, crossings, n - 1, t_min, limit);
        let alone = member_hit(objects, crossings, n - 1, t_min, t_max);
        let now = closest_hit(objects, crossings, n, t_min, t_max);
        assert(now == closer_spec(closest, found));
        if let Some(h) = now {
            assert(h.t.within_spec(t_min, t_max));
            assert forall|i: int| 0 <= i < n implies ((#[trigger] member_hit(
                objects,
                crossings,
                i,
                t_min,
                t_max,
            )) matches Some(m) ==> h.t.le_spec(m.t)) by {
                if i < before {
                    if let Some(m) = member_hit(objects, crossings, i, t_min, t_max) {
                        assert(closest is Some);
                        assert(closest.unwrap().t.le_spec(m.t));
                    }
                } else {
                    assert(member_hit(objects, crossings, i, t_min, t_max) == alone);
                }
            }
        }
    }
}

/// Where every member's roots come in order, the hit that a scene reports is
/// the hit of one of its members looked at alone, and of the first such member
/// among those that are hit equally near. The result is that member's index.
pub proof fn lemma_closest_hit_is_a_member_hit(
    objects: Seq<Sphere>,
    crossings: Seq<Crossings>,
    n: nat,
    t_min: Scalar,
    t_max: Scalar,
) -> (k: int)
    requires
        closest_hit(objects, crossings, n, t_min, t_max) is Some,
        all_ordered(crossings),
    ensures
        0 <= k < n,
        member_hit(objects, crossings, k, t_min, t_max) == closest_hit(
            objects,
            crossings,
            n,
            t_min,
            t_max,
        ),
        forall|i: int|
            0 <= i < k ==> ((#[trigger] member_hit(objects, crossings, i, t_min, t_max))
                matches Some(m) ==> closest_hit(objects, crossings, n, t_min, t_max).unwrap().t.lt_spec(
                m.t,
            )),
    decreases n,
{
    let before = (n - 1) as nat;
    let closest = closest_hit(objects, crossings, before, t_min, t_max);
    let limit = limit_spec(closest, t_max);
    let found = member_hit(objects, crossings, n - 1, t_min, limit);
    let now = closest_hit(objects, crossings, n, t_min, t_max);
    assert(now == closer_spec(closest, found));
    lemma_closest_hit_is_nearest(objects, crossings, before, t_min, t_max);
    lemma_closest_hit_misses(objects, crossings, before, t_min, t_max);
    if closest is Some && now == closest {
        lemma_closest_hit_is_a_member_hit(objects, crossings, before, t_min, t_max)
    } else {
        // the last member is strictly closer than everything before it, or the first to be hit
        let h = now.unwrap();
        assert(found == Some(h));
        assert(member_hit(objects, crossings, n - 1, t_min, t_max) == Some(h));
        assert forall|i: int| 0 <= i < n - 1 implies ((#[trigger] member_hit(
            objects,
            crossings,
            i,
            t_min,
            t_max,
        )) matches Some(m) ==> h.t.lt_spec(m.t)) by {
            if let Some(m) = member_hit(objects, crossings, i, t_min, t_max) {
                assert(closest is Some);
                assert(closest.unwrap().t.le_spec(m.t));
            }
        }
        n - 1
    }
}

/// The order of the members does not change how near a scene is hit. Of two
/// scenes in which every member's roots come in order, and in which the same
/// hits occur when the members are looked at alone, either both report no hit
/// or both report a hit, at parameters of the same value.
pub proof fn lemma_closest_hit_ignores_order(
    objects: Seq<Sphere>,
    crossings: Seq<Crossings>,
    n: nat,
    other_objects: Seq<Sphere>,
    other_crossings: Seq<Crossings>,
    m: nat,
    t_min: Scalar,
    t_max: Scalar,
)
    requires
        all_ordered(crossings),
        all_ordered(other_crossings),
        forall|i: int|
            0 <= i < n ==> exists|j: int|
                0 <= j < m && #[trigger] member_hit(other_objects, other_crossings, j, t_min, t_max)
                    == #[trigger] member_hit(objects, crossings, i, t_min, t_max),
        forall|j: int|
            0 <= j < m ==> exists|i: int|
                0 <= i < n && #[trigger] member_hit(objects, crossings, i, t_min, t_max)
                    == #[trigger] member_hit(other_objects, other_crossings, j, t_min, t_max),
    ensures
        closest_hit(objects, crossings, n, t_min, t_max) is None <==> closest_hit(
            other_objects,
            other_crossings,
            m,
            t_min,
            t_max,
        ) is None,
        closest_hit(objects, crossings, n, t_min, t_max) matches Some(h) ==> closest_hit(
            other_objects,
            other_crossings,
            m,
            t_min,
            t_max,
        ) matches Some(g) && h.t.scaled() == g.t.scaled(),
{
    let here = closest_hit(objects, crossings, n, t_min, t_max);
    let there = closest_hit(other_objects, other_crossings, m, t_min, t_max);
    lemma_closest_hit_misses(objects, crossings, n, t_min, t_max);
    lemma_closest_hit_misses(other_objects, other_crossings, m, t_min, t_max);
    lemma_closest_hit_is_nearest(objects, crossings, n, t_min, t_max);
    lemma_closest_hit_is_nearest(other_objects, other_crossings, m, t_min, t_max);
    if here is Some {
        let i = lemma_closest_hit_is_a_member_hit(objects, crossings, n, t_min, t_max);
        let j = choose|j: int|
            0 <= j < m && #[trigger] member_hit(other_objects, other_crossings, j, t_min, t_max)
                == member_hit(objects, crossings, i, t_min, t_max);
        assert(member_hit(other_objects, other_crossings, j, t_min, t_max) == here);
        assert(there is Some);
    }
    if there is Some {
        let j = lemma_closest_hit_is_a_member_hit(other_objects, other_crossings, m, t_min, t_max);
        let i = choose|i: int|
            0 <= i < n && #[trigger] member_hit(objects, crossings, i, t_min, t_max) == member_hit(
                other_objects,
                other_crossings,
                j,
                t_min,
                t_max,
            );
        assert(member_hit(objects, crossings, i, t_min, t_max) == there);
        assert(here is Some);
    }
}

} // verus!
