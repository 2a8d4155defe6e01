//! A retained-mode scene graph for a vector user interface: a tree of
//! elements that a host mutates step by step, and a renderer that reuses the
//! geometry of every element that did not change since the last frame.
//!
//! The scene keeps its elements in one tree under every sequence of
//! operations. Numbers with a fraction are carried as bit patterns and never
//! computed with; turning shapes into triangles and talking to the GPU are
//! the host's part, which the renderer calls through a delegate.

pub mod scalar;
pub mod transform;
pub mod shape;
pub mod style;
pub mod event;
pub mod node;
pub mod sequences;
pub mod tree;
pub mod order;
pub mod scene;
pub mod renderer;
pub mod surface;
pub mod prelude;
