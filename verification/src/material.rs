//! Materials whose parameters are plain colours.

use vstd::prelude::*;
use crate::RGB;

verus! {

/// Colours a surface by its normal.
pub struct NormalBased {}

/// A diffuse material with a base colour.
pub struct Lambertian {
    color: RGB,
}

impl Lambertian {
    /// The base colour the material was made with.
    pub closed spec fn base_color(&self) -> RGB {
        self.color
    }

    /// Makes a diffuse material of the given colour.
    pub fn new(color: RGB) -> (res: Lambertian)
        ensures
            res.base_color() == color,
    {
        Lambertian { color: color }
    }

    /// The base colour of the material.
    pub fn color(&self) -> (res: RGB)
        ensures
            res == self.base_color(),
    {
        self.color
    }
}

} // verus!
