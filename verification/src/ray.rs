//! A ray as origin plus scaled direction.
use vstd::prelude::*;

use crate::vector::{vadd, vec_in_b, vscale, Point3, Vec3, OP_LIMIT};

verus! {

#[derive(Clone, Copy, Debug, PartialEq, Eq, Structural)]
pub struct Ray {
    pub origin: Point3,
    pub dir: Vec3,
}

/// The point reached after t raw units along the direction.
pub open spec fn at_spec(r: Ray, t: int) -> Point3 {
    vadd(r.origin, vscale(t, r.dir))
}

impl Ray {
    pub fn new(origin: Point3, dir: Vec3) -> (r: Self)
        ensures
            r.origin == origin,
            r.dir == dir,
    {
        Self { origin, dir }
    }

    pub fn origin(&self) -> (r: Point3)
        ensures
            r == self.origin,
    {
        self.origin
    }

    pub fn dir(&self) -> (r: Vec3)
        ensures
            r == self.dir,
    {
        self.dir
    }

    pub fn at(&self, t: i128) -> (r: Point3)
        requires
            vec_in_b(self.origin, OP_LIMIT as int),
            vec_in_b(self.dir, OP_LIMIT as int),
            -OP_LIMIT <= t <= OP_LIMIT,
        ensures
            r == at_spec(*self, t as int),
    {
        proof {
            crate::fixed::lemma_fxm_abs(t as int, self.dir.x as int, OP_LIMIT as int, OP_LIMIT as int);
            crate::fixed::lemma_fxm_abs(t as int, self.dir.y as int, OP_LIMIT as int, OP_LIMIT as int);
            crate::fixed::lemma_fxm_abs(t as int, self.dir.z as int, OP_LIMIT as int, OP_LIMIT as int);
        }
        let s = self.dir.scale(t);
        Vec3 { x: self.origin.x + s.x, y: self.origin.y + s.y, z: self.origin.z + s.z }
    }
}

} // verus!
