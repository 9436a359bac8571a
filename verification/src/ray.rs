use vstd::prelude::*;
use crate::vec3::{Point3, Vec3};

verus! {

/// A ray `origin + t * direction`, sent at time `time`.
/// A ray parameter `k` stands for `t = k / UNITS_PER_WORLD`.
#[derive(Clone, Copy, Debug, PartialEq, Eq, Structural)]
pub struct Ray {
    pub orig: Point3,
    pub dir: Vec3,
    pub tm: i64,
}

impl Ray {
    pub fn new(origin: Point3, direction: Vec3, time: i64) -> (r: Ray)
        ensures
            r.orig == origin,
            r.dir == direction,
            r.tm == time,
    {
        Ray { orig: origin, dir: direction, tm: time }
    }

    pub fn origin(&self) -> (r: Point3)
        ensures
            r == self.orig,
    {
        self.orig
    }

    pub fn direction(&self) -> (r: Vec3)
        ensures
            r == self.dir,
    {
        self.dir
    }

    pub fn time(&self) -> (r: i64)
        ensures
            r == self.tm,
    {
        self.tm
    }
}

} // verus!
