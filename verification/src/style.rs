//! How the geometry of an element is painted.

use vstd::prelude::*;
use crate::scalar::{Scalar, ONE_BITS, ZERO_BITS};

verus! {

/// A colour as red, green, blue and alpha, each meant to lie between zero and
/// one.
#[derive(Clone, Copy, Debug, PartialEq, Eq)]
pub struct Color(pub Scalar, pub Scalar, pub Scalar, pub Scalar);

impl Color {
    /// An opaque colour.
    pub fn rgb(r: Scalar, g: Scalar, b: Scalar) -> (c: Color)
        ensures
            c == Color(r, g, b, Scalar { bits: ONE_BITS }),
    {
        Color(r, g, b, Scalar::one())
    }

    pub fn rgba(r: Scalar, g: Scalar, b: Scalar, a: Scalar) -> (c: Color)
        ensures
            c == Color(r, g, b, a),
    {
        Color(r, g, b, a)
    }

    pub fn white() -> (c: Color)
        ensures
            c == Color(
                Scalar { bits: ONE_BITS },
                Scalar { bits: ONE_BITS },
                Scalar { bits: ONE_BITS },
                Scalar { bits: ONE_BITS },
            ),
    {
        Color(Scalar::one(), Scalar::one(), Scalar::one(), Scalar::one())
    }

    pub fn black() -> (c: Color)
        ensures
            c == Color(
                Scalar { bits: ZERO_BITS },
                Scalar { bits: ZERO_BITS },
                Scalar { bits: ZERO_BITS },
                Scalar { bits: ONE_BITS },
            ),
    {
        Color(Scalar::zero(), Scalar::zero(), Scalar::zero(), Scalar::one())
    }

    pub fn transparent() -> (c: Color)
        ensures
            c == Color(
                Scalar { bits: ZERO_BITS },
                Scalar { bits: ZERO_BITS },
                Scalar { bits: ZERO_BITS },
                Scalar { bits: ZERO_BITS },
            ),
    {
        Color(Scalar::zero(), Scalar::zero(), Scalar::zero(), Scalar::zero())
    }
}

/// Reserved for gradient fills; it carries nothing yet.
#[derive(Clone, Copy, Debug, PartialEq, Eq)]
pub struct Gradient {}

/// How the interior of a shape is painted.
#[derive(Clone, Copy, Debug, PartialEq, Eq)]
pub struct Fill {
    /// The fill colour.
    pub color: Color,
    /// The slot kept for a gradient.
    pub gradient: Option<Gradient>,
}

/// Where a stroke lies relative to the boundary of the shape.
#[derive(Clone, Copy, Debug, PartialEq, Eq)]
pub enum StrokeAlign {
    Center,
    Inside,
    Outside,
}

/// How the outline of a shape is painted.
#[derive(Clone, Copy, Debug, PartialEq, Eq)]
pub struct Stroke {
    /// The stroke colour.
    pub color: Color,
    /// Width of the stroke in logical pixels.
    pub width: Scalar,
    /// Side of the boundary on which the stroke lies.
    pub align: StrokeAlign,
}

/// The appearance of a shape. An aspect that is `None` is not drawn.
#[derive(Clone, Copy, Debug, PartialEq, Eq)]
pub struct Style {
    /// Paint of the interior.
    pub fill: Option<Fill>,
    /// Paint of the outline.
    pub stroke: Option<Stroke>,
}

impl Style {
    /// The style that draws nothing: no fill and no stroke.
    pub open spec fn empty() -> Style {
        Style { fill: None, stroke: None }
    }
}

impl Default for Style {
    fn default() -> (s: Style)
        ensures
            s == Style::empty(),
    {
        Style { fill: None, stroke: None }
    }
}

} // verus!
