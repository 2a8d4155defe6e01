//! The renderer: it keeps the geometry of every element it has drawn and
//! produces geometry anew only for elements that changed or that it has not
//! seen yet.

use vstd::prelude::*;
use std::collections::HashMap;
use crate::node::{Node, NodeId, NodeView};
use crate::sequences::{lemma_filter_agree, lemma_filter_step, lemma_take_next};
use crate::scene::{lemma_same_links_same_tree, Scene, SceneView};
use crate::shape::Shape;

verus! {

broadcast use vstd::std_specs::hash::group_hash_axioms;

/// Why a frame, or one element of it, was not rendered.
#[derive(Clone, Copy, Debug, PartialEq, Eq)]
pub enum RenderError {
    /// No frame could be acquired from the surface; the frame is skipped.
    SurfaceUnavailable,
    /// No geometry could be produced for an element; the element is skipped
    /// for this frame.
    TessellationFailed,
}

/// What one render pass did.
#[derive(Debug)]
pub struct FrameReport {
    /// The elements to draw, in drawing order, each with geometry in the
    /// cache.
    pub draw_list: Vec<NodeId>,
    /// The elements whose geometry was produced anew in this pass.
    pub refreshed: Vec<NodeId>,
    /// The elements for which no geometry could be produced in this pass.
    pub failed: Vec<NodeId>,
}

/// An element must get new geometry when it has a shape and either changed
/// since it was last rendered or has no geometry in the cache.
pub open spec fn needs_refresh<M>(node: NodeView, cache: Map<NodeId, M>) -> bool {
    node.shape is Some && (node.dirty || !cache.contains_key(node.id))
}

/// The elements that are drawn: those with a shape and with geometry in the
/// cache.
pub open spec fn is_drawn<M>(scene: SceneView, cache: Map<NodeId, M>) -> spec_fn(NodeId) -> bool {
    |id: NodeId| scene.nodes[id].shape is Some && cache.contains_key(id)
}

/// The elements that needed new geometry and got it.
pub open spec fn is_refreshed<M>(
    scene: SceneView,
    before: Map<NodeId, M>,
    after: Map<NodeId, M>,
) -> spec_fn(NodeId) -> bool {
    |id: NodeId| needs_refresh(scene.nodes[id], before) && after.contains_key(id)
}

/// The elements that needed new geometry and did not get it.
pub open spec fn is_failed<M>(
    scene: SceneView,
    before: Map<NodeId, M>,
    after: Map<NodeId, M>,
) -> spec_fn(NodeId) -> bool {
    |id: NodeId| needs_refresh(scene.nodes[id], before) && !after.contains_key(id)
}

/// The geometry of an element is as it was: present or absent as before,
/// and the same where present.
pub open spec fn same_entry<M>(before: Map<NodeId, M>, after: Map<NodeId, M>, id: NodeId) -> bool {
    &&& after.contains_key(id) == before.contains_key(id)
    &&& before.contains_key(id) ==> after[id] == before[id]
}

/// What a render pass with the delegate `tessellate` leaves of one element
/// that was `node` when the cache was `before`.
///
/// An element that needed no new geometry keeps its geometry and its flag.
/// One that needed it and got it has in the cache what the delegate returned
/// for its shape, and is no longer dirty. One that did not get it has no
/// geometry in the cache, and its flag is as it was.
pub open spec fn rendered<M, F: FnMut(&Shape) -> Option<M>>(
    tessellate: F,
    node: NodeView,
    before: Map<NodeId, M>,
    node_after: NodeView,
    after: Map<NodeId, M>,
) -> bool {
    if !needs_refresh(node, before) {
        node_after == node && same_entry(before, after, node.id)
    } else if after.contains_key(node.id) {
        &&& node_after == (NodeView { dirty: false, ..node })
        &&& call_ensures(tessellate, (&node.shape.unwrap(),), Some(after[node.id]))
    } else {
        &&& node_after == node
        &&& call_ensures(tessellate, (&node.shape.unwrap(),), None::<M>)
    }
}

/// A pass produces no geometry for an element that is clean and has
/// geometry in the cache: it keeps that geometry, and the element as it is.
pub proof fn lemma_clean_element_is_reused<M, F: FnMut(&Shape) -> Option<M>>(
    tessellate: F,
    node: NodeView,
    before: Map<NodeId, M>,
    node_after: NodeView,
    after: Map<NodeId, M>,
)
    requires
        rendered(tessellate, node, before, node_after, after),
        !node.dirty,
        before.contains_key(node.id),
    ensures
        after.contains_key(node.id),
        after[node.id] == before[node.id],
        node_after == node,
{
}

/// An element for which a pass produced geometry is clean after the pass,
/// and the cache holds what the delegate returned for its shape.
pub proof fn lemma_refreshed_element_is_clean<M, F: FnMut(&Shape) -> Option<M>>(
    tessellate: F,
    node: NodeView,
    before: Map<NodeId, M>,
    node_after: NodeView,
    after: Map<NodeId, M>,
)
    requires
        rendered(tessellate, node, before, node_after, after),
        needs_refresh(node, before),
        after.contains_key(node.id),
    ensures
        !node_after.dirty,
        node_after == (NodeView { dirty: false, ..node }),
        call_ensures(tessellate, (&node.shape.unwrap(),), Some(after[node.id])),
{
}

/// Once an element was detached and a render pass has run, the cache holds
/// no geometry for the element or any of its former descendants: a pass
/// leaves geometry only for what the scene holds.
pub proof fn lemma_detached_leave_cache<M>(before: SceneView, id: NodeId, cache: Map<NodeId, M>)
    requires
        before.wf(),
        before.contains(id),
        forall|x: NodeId| #[trigger] cache.contains_key(x) ==> before.detached(id).contains_key(x),
    ensures
        forall|x: NodeId| before.subtree(id).contains(x) ==> !cache.contains_key(x),
{
    before.lemma_detached(id);
}

/// The cache of a renderer: for each element that was drawn, the geometry
/// that the tessellation delegate produced for its shape. What the geometry
/// is, is up to the host: vertices, or the handle of a buffer that holds
/// them.
pub struct Renderer<M> {
    cache: HashMap<u64, M>,
}

impl<M> View for Renderer<M> {
    type V = Map<NodeId, M>;

    closed spec fn view(&self) -> Map<NodeId, M> {
        Map::new(|id: NodeId| self.cache@.contains_key(id.0), |id: NodeId| self.cache@[id.0])
    }
}

impl<M> Renderer<M> {
    /// A renderer with an empty cache.
    pub fn new() -> (renderer: Renderer<M>)
        ensures
            renderer@ == Map::<NodeId, M>::empty(),
    {
        let renderer = Renderer { cache: HashMap::new() };
        assert(renderer@ =~= Map::<NodeId, M>::empty());
        renderer
    }

    /// The geometry that the cache holds for an element, if any.
    pub fn cached(&self, id: NodeId) -> (mesh: Option<&M>)
        ensures
            match mesh {
                Some(m) => self@.contains_key(id) && *m == self@[id],
                None => !self@.contains_key(id),
            },
    {
        self.cache.get(&id.0)
    }

    /// Whether the cache holds geometry for an element.
    pub fn is_cached(&self, id: NodeId) -> (b: bool)
        ensures
            b == self@.contains_key(id),
    {
        self.cache.contains_key(&id.0)
    }

    /// Whether the cache holds nothing.
    pub fn is_empty(&self) -> (b: bool)
        ensures
            b == (self@ =~= Map::<NodeId, M>::empty()),
    {
        let b = self.cache.is_empty();
        proof {
            if b {
                assert(self@ =~= Map::<NodeId, M>::empty());
            } else {
                let k = choose|k: u64| self.cache@.contains_key(k);
                assert(self.cache@.contains_key(k));
                assert(self@.contains_key(NodeId(k)));
            }
        }
        b
    }

    /// Whether a render pass has to produce geometry for this element.
    pub fn needs_refresh(&self, node: &Node) -> (b: bool)
        ensures
            b == needs_refresh(node@, self@),
    {
        node.shape().is_some() && (node.is_dirty() || !self.cache.contains_key(&node.id().0))
    }

    /// Writes down what the tessellation delegate returned for the shape of
    /// an element. Geometry goes into the cache, replacing what was there, and
    /// the element is marked as rendered. A failure takes the element out of
    /// the cache and leaves its flag alone, so that the next pass tries again.
    pub fn refresh(&mut self, node: &mut Node, outcome: Option<M>) -> (written: Result<
        (),
        RenderError,
    >)
        ensures
            match outcome {
                Some(mesh) => {
                    &&& written is Ok
                    &&& final(self)@ == old(self)@.insert(old(node)@.id, mesh)
                    &&& final(node)@ == (NodeView { dirty: false, ..old(node)@ })
                },
                None => {
                    &&& written == Err::<(), RenderError>(RenderError::TessellationFailed)
                    &&& final(self)@ == old(self)@.remove(old(node)@.id)
                    &&& final(node)@ == old(node)@
                },
            },
    {
        let id = node.id();
        match outcome {
            Some(mesh) => {
                self.cache.insert(id.0, mesh);
                node.clear_dirty();
                assert(self@ =~= old(self)@.insert(id, mesh));
                Ok(())
            },
            None => {
                self.cache.remove(&id.0);
                assert(self@ =~= old(self)@.remove(id));
                Err(RenderError::TessellationFailed)
            },
        }
    }

    /// Keeps the geometry of the given elements and drops the rest.
    pub fn retain(&mut self, ids: &Vec<NodeId>)
        ensures
            final(self)@ == old(self)@.restrict(ids@.to_set()),
    {
        let mut kept: HashMap<u64, M> = HashMap::new();
        let ghost all = self.cache@;
        let n = ids.len();
        let mut i: usize = 0;
        assert(kept@ =~= all.restrict(Set::new(|k: u64| ids@.take(0).contains(NodeId(k)))));
        assert(self.cache@ =~= all.remove_keys(kept@.dom()));
        while i < n
            invariant
                i <= n,
                n == ids.len(),
                kept@ == all.restrict(Set::new(|k: u64| ids@.take(i as int).contains(NodeId(k)))),
                self.cache@ == all.remove_keys(kept@.dom()),
            decreases n - i,
        {
            let id = ids[i];
            match self.cache.remove(&id.0) {
                Some(mesh) => {
                    kept.insert(id.0, mesh);
                },
                None => {},
            }
            proof {
                lemma_take_next(ids@, i as int);
                assert(kept@ =~= all.restrict(
                    Set::new(|k: u64| ids@.take(i + 1).contains(NodeId(k))),
                ));
                assert(self.cache@ =~= all.remove_keys(kept@.dom()));
            }
            i += 1;
        }
        self.cache = kept;
        proof {
            assert(ids@.take(n as int) =~= ids@);
            assert(self@ =~= old(self)@.restrict(ids@.to_set()));
        }
    }

    /// Drops the geometry of every element that the scene no longer holds.
    pub fn prune(&mut self, scene: &Scene)
        requires
            scene.wf(),
        ensures
            final(self)@ == old(self)@.restrict(scene@.nodes.dom()),
    {
        let ids = scene.order_from(scene.root());
        proof {
            scene@.tree().lemma_order_visits_once();
            assert forall|x: NodeId| ids@.to_set().contains(x) <==> scene@.nodes.dom().contains(
                x,
            ) by {
                assert(scene@.tree().contains(x) <==> scene@.contains(x));
            }
            assert(ids@.to_set() =~= scene@.nodes.dom());
        }
        self.retain(&ids);
    }

    /// One render pass over the scene.
    ///
    /// The elements are visited in the order of a walk from the root. Each
    /// element with a shape that is dirty or has no geometry in the cache is
    /// handed to `tessellate`; what comes back is written down as `refresh`
    /// says. Every element with a shape that then has geometry in the cache
    /// goes on the draw list, in the order of the walk. At the end the
    /// geometry of elements that the scene no longer holds is dropped.
    pub fn draw_scene<F: FnMut(&Shape) -> Option<M>>(
        &mut self,
        scene: &mut Scene,
        mut tessellate: F,
    ) -> (frame: FrameReport)
        requires
            old(scene).wf(),
            forall|id: NodeId|
                old(scene)@.contains(id) && old(scene)@.nodes[id].shape is Some ==> call_requires(
                    tessellate,
                    (&old(scene)@.nodes[id].shape.unwrap(),),
                ),
        ensures
            final(scene).wf(),
            final(scene)@.root == old(scene)@.root,
            final(scene)@.nodes.dom() == old(scene)@.nodes.dom(),
            final(scene)@.order() == old(scene)@.order(),
            forall|id: NodeId|
                #![trigger final(scene)@.nodes[id]]
                #![trigger final(self)@.contains_key(id)]
                old(scene)@.contains(id) ==> rendered(
                    tessellate,
                    old(scene)@.nodes[id],
                    old(self)@,
                    final(scene)@.nodes[id],
                    final(self)@,
                ),
            forall|id: NodeId| #[trigger]
                final(self)@.contains_key(id) ==> old(scene)@.contains(id),
            frame.draw_list@ == old(scene)@.order().filter(is_drawn(old(scene)@, final(self)@)),
            frame.refreshed@ == old(scene)@.order().filter(
                is_refreshed(old(scene)@, old(self)@, final(self)@),
            ),
            frame.failed@ == old(scene)@.order().filter(
                is_failed(old(scene)@, old(self)@, final(self)@),
            ),
    {
        let ghost s0 = scene@;
        let ghost c0 = self@;
        let ghost order = scene@.order();
        let ghost delegate = tessellate;
        let ids = scene.order_from(scene.root());
        let n = ids.len();
        let mut draw_list: Vec<NodeId> = Vec::new();
        let mut refreshed: Vec<NodeId> = Vec::new();
        let mut failed: Vec<NodeId> = Vec::new();
        proof {
            s0.tree().lemma_order_visits_once();
            assert forall|x: NodeId| order.contains(x) <==> s0.contains(x) by {
                assert(s0.tree().contains(x) <==> s0.contains(x));
            }
            assert forall|j: int| 0 <= j < n implies s0.contains(#[trigger] order[j]) by {
                assert(order.contains(order[j]));
            }
        }
        let mut i: usize = 0;
        while i < n
            invariant
                i <= n,
                n == ids.len(),
                ids@ == order,
                order == s0.order(),
                order.no_duplicates(),
                s0.wf(),
                s0 == old(scene)@,
                c0 == old(self)@,
                tessellate == delegate,
                forall|j: int| 0 <= j < n ==> s0.contains(#[trigger] order[j]),
                forall|id: NodeId|
                    s0.contains(id) && s0.nodes[id].shape is Some ==> call_requires(
                        tessellate,
                        (&s0.nodes[id].shape.unwrap(),),
                    ),
                scene.wf(),
                scene@.root == s0.root,
                scene@.nodes.dom() == s0.nodes.dom(),
                scene@.tree() == s0.tree(),
                forall|j: int|
                    #![trigger order[j]]
                    0 <= j < i ==> rendered(
                        tessellate,
                        s0.nodes[order[j]],
                        c0,
                        scene@.nodes[order[j]],
                        self@,
                    ),
                forall|j: int|
                    #![trigger order[j]]
                    i <= j < n ==> scene@.nodes[order[j]] == s0.nodes[order[j]] && same_entry(
                        c0,
                        self@,
                        order[j],
                    ),
                forall|x: NodeId| !s0.contains(x) ==> #[trigger] same_entry(c0, self@, x),
                draw_list@ == order.take(i as int).filter(is_drawn(s0, self@)),
                refreshed@ == order.take(i as int).filter(is_refreshed(s0, c0, self@)),
                failed@ == order.take(i as int).filter(is_failed(s0, c0, self@)),
            decreases n - i,
        {
            let id = ids[i];
            let ghost s = scene@;
            let ghost c = self@;
            proof {
                assert(s0.contains(order[i as int]));
                assert(s0.nodes[id].id == id);
                assert(same_entry(c0, c, order[i as int]));
                assert forall|j: int| 0 <= j < n && j != i implies order[j] != id by {}
            }
            let shape: Option<Shape> = match scene.get_node(id) {
                Some(node) => {
                    match node.shape() {
                        Some(shape) => Some(*shape),
                        None => None,
                    }
                },
                None => None,
            };
            match shape {
                Some(shape) => {
                    match scene.get_node_mut(id) {
                        Some(node) => {
                            if self.needs_refresh(node) {
                                let outcome = tessellate(&shape);
                                match self.refresh(node, outcome) {
                                    Ok(_) => {
                                        refreshed.push(id);
                                        draw_list.push(id);
                                    },
                                    Err(_) => {
                                        failed.push(id);
                                    },
                                }
                            } else {
                                draw_list.push(id);
                            }
                        },
                        None => {},
                    }
                },
                None => {},
            }
            proof {
                assert(scene@.nodes.dom() =~= s0.nodes.dom());
                assert forall|x: NodeId| s.contains(x) implies (#[trigger] scene@.nodes[x]).same_links(
                    s.nodes[x],
                ) by {}
                lemma_same_links_same_tree(s, scene@);
                assert forall|x: NodeId| !s0.contains(x) implies #[trigger] same_entry(
                    c0,
                    self@,
                    x,
                ) by {
                    assert(same_entry(c0, c, x));
                }
                assert forall|j: int| 0 <= j < i implies is_drawn(s0, c)(#[trigger] order[j])
                    == is_drawn(s0, self@)(order[j]) by {}
                assert forall|j: int| 0 <= j < i implies is_refreshed(s0, c0, c)(
                    #[trigger] order[j],
                ) == is_refreshed(s0, c0, self@)(order[j]) by {}
                assert forall|j: int| 0 <= j < i implies is_failed(s0, c0, c)(#[trigger] order[j])
                    == is_failed(s0, c0, self@)(order[j]) by {}
                lemma_filter_step(order, i as int, is_drawn(s0, c), is_drawn(s0, self@));
                lemma_filter_step(
                    order,
                    i as int,
                    is_refreshed(s0, c0, c),
                    is_refreshed(s0, c0, self@),
                );
                lemma_filter_step(order, i as int, is_failed(s0, c0, c), is_failed(s0, c0, self@));
                assert(rendered(
                    tessellate,
                    s0.nodes[order[i as int]],
                    c0,
                    scene@.nodes[order[i as int]],
                    self@,
                ));
                assert forall|j: int| #![trigger order[j]] 0 <= j < i implies rendered(
                    tessellate,
                    s0.nodes[order[j]],
                    c0,
                    scene@.nodes[order[j]],
                    self@,
                ) by {
                    assert(rendered(tessellate, s0.nodes[order[j]], c0, s.nodes[order[j]], c));
                    assert(s0.nodes[order[j]].id == order[j]);
                }
            }
            i += 1;
        }
        let ghost c = self@;
        self.retain(&ids);
        proof {
            assert(order.take(n as int) =~= order);
            assert forall|x: NodeId| ids@.to_set().contains(x) <==> s0.contains(x) by {}
            assert forall|j: int| 0 <= j < n implies is_drawn(s0, c)(#[trigger] order[j])
                == is_drawn(s0, self@)(order[j]) by {}
            assert forall|j: int| 0 <= j < n implies is_refreshed(s0, c0, c)(#[trigger] order[j])
                == is_refreshed(s0, c0, self@)(order[j]) by {}
            assert forall|j: int| 0 <= j < n implies is_failed(s0, c0, c)(#[trigger] order[j])
                == is_failed(s0, c0, self@)(order[j]) by {}
            lemma_filter_agree(order, is_drawn(s0, c), is_drawn(s0, self@));
            lemma_filter_agree(order, is_refreshed(s0, c0, c), is_refreshed(s0, c0, self@));
            lemma_filter_agree(order, is_failed(s0, c0, c), is_failed(s0, c0, self@));
            assert forall|id: NodeId|
                #![trigger scene@.nodes[id]]
                #![trigger self@.contains_key(id)]
                s0.contains(id) implies rendered(
                tessellate,
                s0.nodes[id],
                c0,
                scene@.nodes[id],
                self@,
            ) by {
                assert(order.contains(id));
                let j = choose|j: int| 0 <= j < order.len() && order[j] == id;
                assert(rendered(tessellate, s0.nodes[order[j]], c0, scene@.nodes[order[j]], c));
                assert(s0.nodes[id].id == id);
            }
        }
        FrameReport { draw_list, refreshed, failed }
    }

    /// Renders one frame, if the surface gave one.
    ///
    /// Without a frame to draw into nothing happens at all: scene and cache
    /// stay as they are, and the error says that the frame was skipped. With
    /// one, the pass is that of `draw_scene`.
    pub fn render<F: FnMut(&Shape) -> Option<M>>(
        &mut self,
        scene: &mut Scene,
        surface_available: bool,
        tessellate: F,
    ) -> (outcome: Result<FrameReport, RenderError>)
        requires
            old(scene).wf(),
            forall|id: NodeId|
                old(scene)@.contains(id) && old(scene)@.nodes[id].shape is Some ==> call_requires(
                    tessellate,
                    (&old(scene)@.nodes[id].shape.unwrap(),),
                ),
        ensures
            final(scene).wf(),
            !surface_available ==> {
                &&& outcome is Err
                &&& outcome->Err_0 == RenderError::SurfaceUnavailable
                &&& final(scene)@ == old(scene)@
                &&& final(self)@ == old(self)@
            },
            surface_available ==> {
                &&& outcome is Ok
                &&& final(scene)@.root == old(scene)@.root
                &&& final(scene)@.nodes.dom() == old(scene)@.nodes.dom()
                &&& final(scene)@.order() == old(scene)@.order()
                &&& forall|id: NodeId|
                    #![trigger final(scene)@.nodes[id]]
                    #![trigger final(self)@.contains_key(id)]
                    old(scene)@.contains(id) ==> rendered(
                        tessellate,
                        old(scene)@.nodes[id],
                        old(self)@,
                        final(scene)@.nodes[id],
                        final(self)@,
                    )
                &&& forall|id: NodeId| #[trigger]
                    final(self)@.contains_key(id) ==> old(scene)@.contains(id)
                &&& outcome->Ok_0.draw_list@ == old(scene)@.order().filter(
                    is_drawn(old(scene)@, final(self)@),
                )
                &&& outcome->Ok_0.refreshed@ == old(scene)@.order().filter(
                    is_refreshed(old(scene)@, old(self)@, final(self)@),
                )
                &&& outcome->Ok_0.failed@ == old(scene)@.order().filter(
                    is_failed(old(scene)@, old(self)@, final(self)@),
                )
            },
    {
        if !surface_available {
            return Err(RenderError::SurfaceUnavailable);
        }
        Ok(self.draw_scene(scene, tessellate))
    }
}

} // verus!
