//! Identities and the elements that carry them.

use vstd::prelude::*;
use crate::event::EventHandler;
use crate::shape::Shape;
use crate::style::Style;
use crate::transform::Transform;
use crate::sequences::{other_than, without};

verus! {

/// Stable handle of one element: unique, never issued twice, and independent
/// of where the element sits in the tree.
#[derive(Debug, Clone, Copy, PartialEq, Eq, Hash, Structural)]
pub struct NodeId(pub u64);

/// The first identity that an allocator issues. Zero stays free as a
/// sentinel.
pub const FIRST_ID: u64 = 1;

/// Source of identities: a counter that only grows.
///
/// Whoever builds scenes owns one allocator and hands it to every
/// constructor, so no two elements made through it share an identity. An
/// identity is drawn through an exclusive reference: two threads cannot draw
/// at once, and threads that share an allocator keep it behind a lock.
pub struct IdAllocator {
    next: u64,
}

impl IdAllocator {
    /// The identity that the next call of [`generate_id`] issues.
    pub closed spec fn next_id(&self) -> u64 {
        self.next
    }

    /// Whether another identity can be issued.
    pub open spec fn can_issue(&self) -> bool {
        self.next_id() < u64::MAX
    }

    /// An allocator that has issued nothing yet.
    pub fn new() -> (ids: IdAllocator)
        ensures
            ids.next_id() == FIRST_ID,
    {
        IdAllocator { next: FIRST_ID }
    }

    /// The number of identities that can still be issued.
    pub fn remaining(&self) -> (n: u64)
        ensures
            n == u64::MAX - self.next_id(),
            n > 0 <==> self.can_issue(),
    {
        u64::MAX - self.next
    }
}

/// Issues a fresh identity: the allocator's next one, after which the
/// allocator stands one higher. Identities therefore come out in strictly
/// increasing order and none comes out twice.
pub fn generate_id(ids: &mut IdAllocator) -> (id: NodeId)
    requires
        old(ids).can_issue(),
    ensures
        id.0 == old(ids).next_id(),
        final(ids).next_id() == old(ids).next_id() + 1,
{
    let id = ids.next;
    ids.next = id + 1;
    NodeId(id)
}

/// What an element is, as a mathematical value.
pub struct NodeView {
    pub id: NodeId,
    pub parent: Option<NodeId>,
    pub children: Seq<NodeId>,
    pub transform: Transform,
    pub shape: Option<Shape>,
    pub style: Style,
    pub handler: Option<EventHandler>,
    pub dirty: bool,
}

impl NodeView {
    /// What a newly created element is: detached, with the identity
    /// transform, no shape, an empty style and no handler, and dirty.
    pub open spec fn fresh(id: NodeId) -> NodeView {
        NodeView {
            id,
            parent: None,
            children: Seq::empty(),
            transform: Transform::identity(),
            shape: None,
            style: Style::empty(),
            handler: None,
            dirty: true,
        }
    }

    /// An element that belongs to no tree: it has neither parent nor
    /// children.
    pub open spec fn is_detached(self) -> bool {
        self.parent is None && self.children.len() == 0
    }

    /// Whether two elements have the same identity and hierarchy links.
    pub open spec fn same_links(self, other: NodeView) -> bool {
        self.id == other.id && self.parent == other.parent && self.children == other.children
    }
}

/// One element of the scene graph: its place in the hierarchy, its
/// transform, shape and style, its event handler, and the flag that says
/// whether it changed since it was last rendered.
///
/// An element only holds state. Its hierarchy links are written by the scene
/// that owns it, which keeps the tree consistent.
pub struct Node {
    id: NodeId,
    parent: Option<NodeId>,
    children: Vec<NodeId>,
    transform: Transform,
    shape: Option<Shape>,
    style: Style,
    on_event: Option<EventHandler>,
    dirty: bool,
}

impl View for Node {
    type V = NodeView;

    closed spec fn view(&self) -> NodeView {
        NodeView {
            id: self.id,
            parent: self.parent,
            children: self.children@,
            transform: self.transform,
            shape: self.shape,
            style: self.style,
            handler: self.on_event,
            dirty: self.dirty,
        }
    }
}

impl Node {
    /// Creates an element with a fresh identity. It is detached, has the
    /// identity transform, no shape, an empty style and no handler, and it is
    /// dirty.
    pub fn new(ids: &mut IdAllocator) -> (node: Node)
        requires
            old(ids).can_issue(),
        ensures
            final(ids).next_id() == old(ids).next_id() + 1,
            node@ == NodeView::fresh(NodeId(old(ids).next_id())),
    {
        Node {
            id: generate_id(ids),
            parent: None,
            children: Vec::new(),
            transform: Transform::default(),
            shape: None,
            style: Style::default(),
            on_event: None,
            dirty: true,
        }
    }

    /// The identity of this element.
    pub fn id(&self) -> (id: NodeId)
        ensures
            id == self@.id,
    {
        self.id
    }

    /// The identity of the parent, if the element is attached below one.
    pub fn parent(&self) -> (parent: Option<NodeId>)
        ensures
            parent == self@.parent,
    {
        self.parent
    }

    /// Records the parent link. Only the owning scene calls this.
    pub(crate) fn set_parent(&mut self, parent: NodeId)
        ensures
            final(self)@ == (NodeView { parent: Some(parent), ..old(self)@ }),
    {
        self.parent = Some(parent);
    }

    /// The identities of the children, in the order in which they were
    /// attached.
    pub fn children(&self) -> (children: &[NodeId])
        ensures
            children@ == self@.children,
    {
        self.children.as_slice()
    }

    /// Appends a child link. Only the owning scene calls this.
    pub(crate) fn add_child(&mut self, child: NodeId)
        ensures
            final(self)@ == (NodeView { children: old(self)@.children.push(child), ..old(self)@ }),
    {
        self.children.push(child);
    }

    /// Drops every link to the given child and keeps the others in their
    /// order. Only the owning scene calls this.
    pub(crate) fn remove_child(&mut self, child: NodeId)
        ensures
            final(self)@ == (NodeView {
                children: without(old(self)@.children, child),
                ..old(self)@
            }),
    {
        let mut kept: Vec<NodeId> = Vec::new();
        let n = self.children.len();
        for i in 0..n
            invariant
                n == self.children.len(),
                *self == *old(self),
                kept@ == without(self.children@.take(i as int), child),
        {
            let c = self.children[i];
            proof {
                let keep = other_than(child);
                assert(self.children@.take(i + 1) =~= self.children@.take(i as int).push(c));
                self.children@.take(i as int).lemma_filter_push(c, keep);
            }
            if c.0 != child.0 {
                kept.push(c);
            }
        }
        assert(self.children@.take(n as int) == self.children@);
        self.children = kept;
    }

    /// A copy of the list of children.
    pub(crate) fn child_list(&self) -> (list: Vec<NodeId>)
        ensures
            list@ == self@.children,
    {
        let mut list: Vec<NodeId> = Vec::new();
        let n = self.children.len();
        for i in 0..n
            invariant
                n == self.children.len(),
                list@ == self.children@.take(i as int),
        {
            list.push(self.children[i]);
            assert(self.children@.take(i + 1) =~= self.children@.take(i as int).push(
                self.children@[i as int],
            ));
        }
        assert(self.children@.take(n as int) =~= self.children@);
        list
    }

    /// Writes identity and hierarchy links and leaves the rest as it is.
    /// Only the owning scene calls this.
    pub(crate) fn set_links(&mut self, id: NodeId, parent: Option<NodeId>, children: Vec<NodeId>)
        ensures
            final(self)@ == (NodeView { id, parent, children: children@, ..old(self)@ }),
    {
        self.id = id;
        self.parent = parent;
        self.children = children;
    }

    /// The transform of this element.
    pub fn transform(&self) -> (transform: &Transform)
        ensures
            *transform == self@.transform,
    {
        &self.transform
    }

    /// Hands out the transform for writing. Because the placement may change
    /// through the reference, the element is marked dirty.
    pub fn transform_mut(&mut self) -> (transform: &mut Transform)
        ensures
            *transform == old(self)@.transform,
            final(self)@ == (NodeView {
                transform: *final(transform),
                dirty: true,
                ..old(self)@
            }),
    {
        self.dirty = true;
        &mut self.transform
    }

    /// The shape of this element, if it has one.
    pub fn shape(&self) -> (shape: Option<&Shape>)
        ensures
            shape matches Some(s) ==> self@.shape == Some(*s),
            shape is None <==> self@.shape is None,
    {
        self.shape.as_ref()
    }

    /// Gives the element a shape and marks it dirty.
    pub fn set_shape(&mut self, shape: Shape)
        ensures
            final(self)@ == (NodeView { shape: Some(shape), dirty: true, ..old(self)@ }),
    {
        self.shape = Some(shape);
        self.dirty = true;
    }

    /// Takes the shape away and marks the element dirty. An element without
    /// a shape is not drawn.
    pub fn clear_shape(&mut self)
        ensures
            final(self)@ == (NodeView { shape: None, dirty: true, ..old(self)@ }),
    {
        self.shape = None;
        self.dirty = true;
    }

    /// The style of this element.
    pub fn style(&self) -> (style: &Style)
        ensures
            *style == self@.style,
    {
        &self.style
    }

    /// Hands out the style for writing. Because the appearance may change
    /// through the reference, the element is marked dirty.
    pub fn style_mut(&mut self) -> (style: &mut Style)
        ensures
            *style == old(self)@.style,
            final(self)@ == (NodeView { style: *final(style), dirty: true, ..old(self)@ }),
    {
        self.dirty = true;
        &mut self.style
    }

    /// The event handler of this element, if it has one.
    pub fn event_handler(&self) -> (handler: Option<&EventHandler>)
        ensures
            handler matches Some(h) ==> self@.handler == Some(*h),
            handler is None <==> self@.handler is None,
    {
        self.on_event.as_ref()
    }

    /// Gives the element an event handler. What is drawn does not depend on
    /// the handler, so the dirty flag stays as it is.
    pub fn set_event_handler(&mut self, handler: EventHandler)
        ensures
            final(self)@ == (NodeView { handler: Some(handler), ..old(self)@ }),
    {
        self.on_event = Some(handler);
    }

    /// Takes the event handler away; the dirty flag stays as it is.
    pub fn clear_event_handler(&mut self)
        ensures
            final(self)@ == (NodeView { handler: None, ..old(self)@ }),
    {
        self.on_event = None;
    }

    /// Whether the element changed since it was last rendered.
    pub fn is_dirty(&self) -> (dirty: bool)
        ensures
            dirty == self@.dirty,
    {
        self.dirty
    }

    /// Marks the element as changed.
    pub fn mark_dirty(&mut self)
        ensures
            final(self)@ == (NodeView { dirty: true, ..old(self)@ }),
    {
        self.dirty = true;
    }

    /// Marks the element as rendered.
    pub fn clear_dirty(&mut self)
        ensures
            final(self)@ == (NodeView { dirty: false, ..old(self)@ }),
    {
        self.dirty = false;
    }
}

} // verus!
