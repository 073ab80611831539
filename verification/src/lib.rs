//! Verified core of a small ray tracer: colours, the frame accumulator and
//! letterboxing of the display, image encoding, and the construction of the
//! bounding volume hierarchy over a triangle mesh.

use vstd::prelude::*;

pub mod display;
pub mod material;
pub mod mesh;

verus! {

/// An 8-bit-per-channel colour.
#[derive(Debug, Default, Clone, Copy, PartialEq, Eq, Structural)]
pub struct RGB {
    pub r: u8,
    pub g: u8,
    pub b: u8,
}

impl RGB {
    /// Whether the channel-wise sum of two colours fits in 8 bits per channel.
    pub open spec fn can_add(self, a: RGB) -> bool {
        &&& self.r + a.r <= 255
        &&& self.g + a.g <= 255
        &&& self.b + a.b <= 255
    }

    /// The channel-wise sum of two colours, as a colour.
    pub open spec fn sum(self, a: RGB) -> RGB {
        RGB { r: (self.r + a.r) as u8, g: (self.g + a.g) as u8, b: (self.b + a.b) as u8 }
    }

    /// Adds two colours channel by channel.
    pub fn add(&self, a: RGB) -> (res: RGB)
        requires
            self.can_add(a),
        ensures
            res == self.sum(a),
            res.r == self.r + a.r,
            res.g == self.g + a.g,
            res.b == self.b + a.b,
    {
        RGB { r: self.r + a.r, g: self.g + a.g, b: self.b + a.b }
    }
}

/// Adding colours does not depend on the order of the operands.
pub proof fn rgb_add_commutative(a: RGB, b: RGB)
    requires
        a.can_add(b),
    ensures
        b.can_add(a),
        a.sum(b) == b.sum(a),
{
}

/// Adding colours is associative where every partial sum fits.
pub proof fn rgb_add_associative(a: RGB, b: RGB, c: RGB)
    requires
        a.can_add(b),
        a.sum(b).can_add(c),
    ensures
        b.can_add(c),
        a.can_add(b.sum(c)),
        a.sum(b).sum(c) == a.sum(b.sum(c)),
{
}

/// Black is the neutral element of colour addition.
pub proof fn rgb_add_black(a: RGB)
    ensures
        a.can_add(RGB { r: 0, g: 0, b: 0 }),
        a.sum(RGB { r: 0, g: 0, b: 0 }) == a,
{
}

} // verus!

