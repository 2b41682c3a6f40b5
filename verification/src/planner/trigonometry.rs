//! The trigonometric functions that arcs need, supplied by the host.
use vstd::prelude::*;
use crate::double::Double;

verus! {

/// The host's arc tangent, cosine and sine.
#[derive(Clone, Copy)]
pub struct Trigonometry<A, C, S> {
    /// The angle of the vector with the given second and first coordinate.
    pub atan2: A,
    pub cos: C,
    pub sin: S,
}

impl<A, C, S> Trigonometry<A, C, S> where
    A: Fn(Double, Double) -> Double,
    C: Fn(Double) -> Double,
    S: Fn(Double) -> Double,
 {
    /// They take any argument, and give one result for it.
    pub open spec fn functional(self) -> bool {
        &&& forall|y: Double, x: Double| #[trigger] call_requires(self.atan2, (y, x))
        &&& forall|a: Double| #[trigger] call_requires(self.cos, (a,))
        &&& forall|a: Double| #[trigger] call_requires(self.sin, (a,))
        &&& forall|y: Double, x: Double, r: Double, s: Double| #[trigger]
            call_ensures(self.atan2, (y, x), r) && #[trigger] call_ensures(self.atan2, (y, x), s)
                ==> r == s
        &&& forall|a: Double, r: Double, s: Double| #[trigger]
            call_ensures(self.cos, (a,), r) && #[trigger] call_ensures(self.cos, (a,), s) ==> r == s
        &&& forall|a: Double, r: Double, s: Double| #[trigger]
            call_ensures(self.sin, (a,), r) && #[trigger] call_ensures(self.sin, (a,), s) ==> r == s
    }

    /// What the host's arc tangent gives.
    pub open spec fn angle_of(self, y: Double, x: Double) -> Double {
        choose|r: Double| call_ensures(self.atan2, (y, x), r)
    }

    /// What the host's cosine gives.
    pub open spec fn cosine(self, angle: Double) -> Double {
        choose|r: Double| call_ensures(self.cos, (angle,), r)
    }

    /// What the host's sine gives.
    pub open spec fn sine(self, angle: Double) -> Double {
        choose|r: Double| call_ensures(self.sin, (angle,), r)
    }

    pub fn angle(&self, y: Double, x: Double) -> (angle: Double)
        requires
            self.functional(),
        ensures
            angle == self.angle_of(y, x),
    {
        (self.atan2)(y, x)
    }

    pub fn cosine_at(&self, angle: Double) -> (cosine: Double)
        requires
            self.functional(),
        ensures
            cosine == self.cosine(angle),
    {
        (self.cos)(angle)
    }

    pub fn sine_at(&self, angle: Double) -> (sine: Double)
        requires
            self.functional(),
        ensures
            sine == self.sine(angle),
    {
        (self.sin)(angle)
    }
}

} // verus!
