//! Objects that report an axis-aligned bounding box of themselves.

use vstd::prelude::*;

use crate::bounding_box::BoundingBox;
use crate::point::Point;

verus! {

/// An object enclosed by an axis-aligned bounding box.
pub trait Bounded {
    /// The box this object reports.
    spec fn bounds_spec(&self) -> BoundingBox;

    /// The bounding box for this object.
    fn bounds(&self) -> (b: BoundingBox)
        ensures
            b == self.bounds_spec(),
    ;
}

impl Bounded for BoundingBox {
    /// A box bounds itself.
    open spec fn bounds_spec(&self) -> BoundingBox {
        *self
    }

    fn bounds(&self) -> (b: BoundingBox)
        ensures
            b == self.bounds_spec(),
    {
        *self
    }
}

impl Bounded for Point {
    /// A point is bounded by the degenerate box holding exactly it.
    open spec fn bounds_spec(&self) -> BoundingBox {
        BoundingBox::just_spec(*self)
    }

    fn bounds(&self) -> (b: BoundingBox)
        ensures
            b == self.bounds_spec(),
    {
        BoundingBox::just(self)
    }
}

} // verus!
