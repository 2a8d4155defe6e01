//! Geometry that an element can show.

use vstd::prelude::*;
use crate::scalar::Scalar;

verus! {

/// An axis-aligned rectangle with one corner at the origin.
#[derive(Clone, Copy, Debug, PartialEq, Eq)]
pub struct Rect {
    pub width: Scalar,
    pub height: Scalar,
}

impl Rect {
    /// A rectangle has an area to fill when neither dimension is negative.
    pub open spec fn is_valid(self) -> bool {
        self.width.is_non_negative() && self.height.is_non_negative()
    }

    pub fn new(width: Scalar, height: Scalar) -> (r: Rect)
        ensures
            r.width == width,
            r.height == height,
    {
        Rect { width, height }
    }

    /// Whether neither dimension is negative.
    pub fn has_valid_dimensions(&self) -> (b: bool)
        ensures
            b == self.is_valid(),
    {
        self.width.non_negative() && self.height.non_negative()
    }
}

/// The visible geometry of an element.
///
/// The set of variants is closed: whoever turns shapes into triangles matches
/// on it, and a new kind of geometry is added here and nowhere else.
#[derive(Clone, Copy, Debug, PartialEq, Eq)]
pub enum Shape {
    /// A rectangle given by its width and height.
    Rect(Rect),
}

impl Shape {
    /// Whether the geometry is one that can be filled.
    pub open spec fn is_valid(self) -> bool {
        match self {
            Shape::Rect(rect) => rect.is_valid(),
        }
    }

    /// Whether the geometry is one that can be filled.
    pub fn has_valid_dimensions(&self) -> (b: bool)
        ensures
            b == self.is_valid(),
    {
        match self {
            Shape::Rect(rect) => rect.has_valid_dimensions(),
        }
    }
}

} // verus!
