//! Placement of an element relative to its parent.

use vstd::prelude::*;
use crate::scalar::{Scalar, ONE_BITS, ZERO_BITS};

verus! {

/// How an element is moved, scaled and rotated in its parent's coordinate
/// frame.
#[derive(Clone, Copy, Debug, PartialEq, Eq)]
pub struct Transform {
    /// The (x, y) offset from the parent's origin.
    pub translate: (Scalar, Scalar),
    /// The (x, y) scaling factors; (1, 1) leaves the size as it is.
    pub scale: (Scalar, Scalar),
    /// Rotation in radians, clockwise around the origin.
    pub rotate: Scalar,
}

/// Which transforms place an element when it is drawn.
#[derive(Clone, Copy, Debug, PartialEq, Eq)]
pub enum TransformMode {
    /// The element's own transform alone: every element is drawn in the
    /// coordinate frame of its parent, as if no ancestor had a transform.
    Local,
    /// The transforms of all ancestors and the element's own, from the root
    /// down: the element is drawn in the coordinate frame of the scene.
    World,
}

impl Default for TransformMode {
    fn default() -> (mode: TransformMode)
        ensures
            mode == TransformMode::Local,
    {
        TransformMode::Local
    }
}

impl Transform {
    /// The transform that changes nothing: no offset, unit scale, no rotation.
    pub open spec fn identity() -> Transform {
        Transform {
            translate: (Scalar { bits: ZERO_BITS }, Scalar { bits: ZERO_BITS }),
            scale: (Scalar { bits: ONE_BITS }, Scalar { bits: ONE_BITS }),
            rotate: Scalar { bits: ZERO_BITS },
        }
    }

    /// Whether this transform changes nothing.
    pub fn is_identity(&self) -> (b: bool)
        ensures
            b == (*self == Transform::identity()),
    {
        self.translate.0.bits == ZERO_BITS && self.translate.1.bits == ZERO_BITS
            && self.scale.0.bits == ONE_BITS && self.scale.1.bits == ONE_BITS
            && self.rotate.bits == ZERO_BITS
    }
}

impl Default for Transform {
    fn default() -> (t: Transform)
        ensures
            t == Transform::identity(),
    {
        Transform {
            translate: (Scalar::zero(), Scalar::zero()),
            scale: (Scalar::one(), Scalar::one()),
            rotate: Scalar::zero(),
        }
    }
}

} // verus!
