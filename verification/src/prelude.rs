//! The names that most hosts need, in one place.

pub use crate::event::{Event, EventCallback, EventHandler};
pub use crate::node::{generate_id, IdAllocator, Node, NodeId};
pub use crate::renderer::{FrameReport, RenderError, Renderer};
pub use crate::scalar::Scalar;
pub use crate::scene::{Scene, SceneError};
pub use crate::shape::{Rect, Shape};
pub use crate::style::{Color, Fill, Gradient, Stroke, StrokeAlign, Style};
pub use crate::surface::SurfaceSize;
pub use crate::transform::{Transform, TransformMode};
