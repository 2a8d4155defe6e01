//! The size of the surface that frames are drawn into.

use vstd::prelude::*;

verus! {

/// Width and height of the drawing surface, in pixels.
#[derive(Clone, Copy, Debug, PartialEq, Eq)]
pub struct SurfaceSize {
    pub width: u32,
    pub height: u32,
}

impl SurfaceSize {
    pub fn new(width: u32, height: u32) -> (size: SurfaceSize)
        ensures
            size.width == width,
            size.height == height,
    {
        SurfaceSize { width, height }
    }

    /// A size with room to draw: both dimensions are positive.
    pub open spec fn is_drawable(width: u32, height: u32) -> bool {
        width > 0 && height > 0
    }

    /// Takes over a new size if it has room to draw and says so; a size with
    /// a zero dimension, as a minimised window reports it, is ignored. The
    /// host configures its surface anew exactly when the result is `true`.
    pub fn resize(&mut self, width: u32, height: u32) -> (accepted: bool)
        ensures
            accepted == SurfaceSize::is_drawable(width, height),
            accepted ==> *final(self) == (SurfaceSize { width, height }),
            !accepted ==> *final(self) == *old(self),
    {
        if width > 0 && height > 0 {
            self.width = width;
            self.height = height;
            true
        } else {
            false
        }
    }
}

} // verus!
