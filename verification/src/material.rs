use vstd::prelude::*;
use crate::ray::Ray;
use crate::vec3::Color;

verus! {

/// The outcome of a scattering event: how much of the light is kept, per
/// colour channel, and the ray that carries on.
#[derive(Clone, Copy, Debug, PartialEq, Eq, Structural)]
pub struct ScatterRecord {
    pub attenuation: Color,
    pub scattered: Ray,
}

} // verus!
