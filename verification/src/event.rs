//! Input events and the handlers that elements carry for them.

use vstd::prelude::*;

verus! {

/// A user interaction that is delivered to one element.
#[derive(Clone, Copy, Debug, PartialEq, Eq)]
pub enum Event {
    /// The element was clicked.
    Click,
    /// The pointer entered the element's area.
    PointerEnter,
    /// The pointer left the element's area.
    PointerLeave,
}

/// What a host implements to react to events.
///
/// A callback may be invoked from any thread, hence the two marker bounds.
/// It never gets hold of the scene: what it wants changed it sends as a
/// message to the thread that owns the scene.
pub trait EventCallback: Send + Sync {
    fn on_event(&self, event: Event);
}

/// The event handler of one element: a boxed callback.
pub struct EventHandler {
    /// The callback that events are handed to.
    pub callback: Box<dyn EventCallback>,
}

impl EventHandler {
    /// Wraps a callback: the handler holds exactly the callback given. What
    /// the callback does is the host's business: the scene graph stores
    /// handlers and never looks inside them.
    pub fn new(callback: Box<dyn EventCallback>) -> (handler: EventHandler)
        ensures
            handler == (EventHandler { callback }),
    {
        EventHandler { callback }
    }

    /// Hands the event to the callback.
    pub fn handle(&self, event: Event) {
        self.callback.on_event(event)
    }
}

} // verus!
