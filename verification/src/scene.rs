//! The scene: the store that owns every element and keeps them in one tree.

use vstd::prelude::*;
use std::collections::HashMap;
use std::collections::hash_map::Entry;
use crate::node::{IdAllocator, Node, NodeId, NodeView};
use crate::transform::{Transform, TransformMode};
use crate::sequences::{lemma_take_next, lemma_without, precedes, without};
use crate::tree::{Links, Tree};

verus! {

broadcast use vstd::std_specs::hash::group_hash_axioms;

/// What a scene is, as a mathematical value: the identity of its root and
/// the elements it holds, each under its identity.
pub struct SceneView {
    pub root: NodeId,
    pub nodes: Map<NodeId, NodeView>,
}

impl SceneView {
    pub open spec fn contains(self, id: NodeId) -> bool {
        self.nodes.contains_key(id)
    }

    /// The hierarchy alone, without what the elements show.
    pub open spec fn tree(self) -> Tree {
        Tree {
            root: self.root,
            links: Map::new(
                |id: NodeId| self.nodes.contains_key(id),
                |id: NodeId|
                    Links { parent: self.nodes[id].parent, children: self.nodes[id].children },
            ),
        }
    }

    /// Every element is stored under its own identity, and the hierarchy is
    /// a tree below the root.
    pub open spec fn wf(self) -> bool {
        &&& forall|id: NodeId| #[trigger] self.nodes.contains_key(id) ==> self.nodes[id].id == id
        &&& self.tree().wf()
    }

    /// The order in which a walk from the root visits the elements.
    pub open spec fn order(self) -> Seq<NodeId> {
        self.tree().order()
    }

    /// The elements after `node`, which is detached and new to the scene, was
    /// attached below `parent` as its last child.
    pub open spec fn attached(self, parent: NodeId, node: NodeView) -> Map<NodeId, NodeView> {
        self.nodes.insert(
            parent,
            NodeView { children: self.nodes[parent].children.push(node.id), ..self.nodes[parent] },
        ).insert(node.id, NodeView { parent: Some(parent), ..node })
    }

    /// The elements after `id` and all its descendants were taken out: they
    /// are gone, the former parent of `id` no longer lists it, and every
    /// other element is as it was.
    pub open spec fn detached(self, id: NodeId) -> Map<NodeId, NodeView> {
        Map::new(
            |x: NodeId| self.contains(x) && !self.subtree(id).contains(x),
            |x: NodeId|
                if self.nodes[id].parent == Some(x) {
                    NodeView { children: without(self.nodes[x].children, id), ..self.nodes[x] }
                } else {
                    self.nodes[x]
                },
        )
    }

    /// The chain of elements from the root down to `id`, both included;
    /// empty where the scene does not hold `id`.
    pub open spec fn path(self, id: NodeId) -> Seq<NodeId> {
        if self.contains(id) {
            self.tree().path(id)
        } else {
            Seq::empty()
        }
    }

    /// The transforms that place `id`, outermost first: under `Local` its
    /// own, under `World` those of the chain from the root down to it. Empty
    /// where the scene does not hold `id`.
    pub open spec fn placement(self, id: NodeId, mode: TransformMode) -> Seq<Transform> {
        match mode {
            TransformMode::Local => if self.contains(id) {
                seq![self.nodes[id].transform]
            } else {
                Seq::empty()
            },
            TransformMode::World => Seq::new(
                self.path(id).len(),
                |i: int| self.nodes[self.path(id)[i]].transform,
            ),
        }
    }

    /// The element `id` and all its descendants, in the order of a walk that
    /// starts at `id`; empty where the scene does not hold `id`.
    pub open spec fn subtree(self, id: NodeId) -> Seq<NodeId> {
        if self.contains(id) {
            self.tree().subtree_order(id)
        } else {
            Seq::empty()
        }
    }
}

/// A scene stays well formed, and is walked in the same order, when its
/// elements change what they show and keep their identities and links.
pub proof fn lemma_same_links_same_tree(before: SceneView, after: SceneView)
    requires
        before.wf(),
        after.root == before.root,
        after.nodes.dom() =~= before.nodes.dom(),
        forall|id: NodeId|
            before.contains(id) ==> (#[trigger] after.nodes[id]).same_links(before.nodes[id]),
    ensures
        after.wf(),
        after.tree() == before.tree(),
        after.order() == before.order(),
{
    assert forall|id: NodeId| after.tree().contains(id) implies after.tree().links[id]
        == before.tree().links[id] by {
        assert(before.contains(id));
        assert(after.nodes[id].same_links(before.nodes[id]));
    }
    assert(after.tree().links =~= before.tree().links);
    assert(after.tree() == before.tree());
    assert forall|id: NodeId| #[trigger] after.nodes.contains_key(id) implies after.nodes[id].id
        == id by {
        assert(before.contains(id));
        assert(after.nodes[id].same_links(before.nodes[id]));
    }
}

impl SceneView {
    /// A walk visits every element of a well-formed scene, and each once.
    pub proof fn lemma_walk_visits_once(self)
        requires
            self.wf(),
        ensures
            self.order().no_duplicates(),
            forall|id: NodeId| self.order().contains(id) <==> self.contains(id),
    {
        self.tree().lemma_order_visits_once();
        assert forall|id: NodeId| self.order().contains(id) <==> self.contains(id) by {
            assert(self.tree().contains(id) <==> self.contains(id));
        }
    }

    /// A walk visits an element after its parent.
    pub proof fn lemma_walk_parent_first(self, id: NodeId)
        requires
            self.wf(),
            self.contains(id),
            id != self.root,
        ensures
            self.nodes[id].parent is Some,
            precedes(self.order(), self.nodes[id].parent.unwrap(), id),
    {
        assert(self.tree().contains(id));
        self.tree().lemma_parent_first(id);
    }

    /// A walk visits the children of an element in the order in which they
    /// were attached, which is the order of the list of children.
    pub proof fn lemma_walk_attach_order(self, parent: NodeId, i: int, j: int)
        requires
            self.wf(),
            self.contains(parent),
            0 <= i < j < self.nodes[parent].children.len(),
        ensures
            precedes(self.order(), self.nodes[parent].children[i], self.nodes[parent].children[j]),
    {
        assert(self.tree().contains(parent));
        self.tree().lemma_siblings_in_order(parent, i, j);
    }

    /// The subtree of an element holds the element itself and, of the other
    /// elements, exactly those whose parent it holds: the descendants.
    pub proof fn lemma_subtree_descendants(self, id: NodeId, x: NodeId)
        requires
            self.wf(),
            self.contains(id),
            self.contains(x),
        ensures
            self.subtree(id).contains(x) <==> x == id || (self.nodes[x].parent is Some
                && self.subtree(id).contains(self.nodes[x].parent.unwrap())),
    {
        let tree = self.tree();
        assert(tree.contains(id) && tree.contains(x));
        tree.lemma_subtree_parts(id);
        if self.subtree(id).contains(x) && x != id {
            tree.lemma_subtree_parent(id, x);
        }
        if x != id && self.nodes[x].parent is Some && self.subtree(id).contains(
            self.nodes[x].parent.unwrap(),
        ) {
            assert(tree.contains(tree.root));
            assert(x != tree.root);
            tree.lemma_subtree_child(id, x);
        }
    }

    /// The chain to an element starts at the root, ends at the element, and
    /// each of its elements is the parent of the next.
    pub proof fn lemma_path(self, id: NodeId)
        requires
            self.wf(),
            self.contains(id),
        ensures
            self.path(id).len() > 0,
            self.path(id)[0] == self.root,
            self.path(id).last() == id,
            forall|i: int| 0 <= i < self.path(id).len() ==> self.contains(#[trigger] self.path(id)[i]),
            forall|i: int|
                0 < i < self.path(id).len() ==> self.nodes[#[trigger] self.path(id)[i]].parent
                    == Some(self.path(id)[i - 1]),
    {
        assert(self.tree().contains(id));
        self.tree().lemma_path(id);
    }

    /// Detaching an element takes it and all its descendants out of the
    /// scene, keeps every other element, and takes it off its former parent's
    /// list of children.
    pub proof fn lemma_detached(self, id: NodeId)
        requires
            self.wf(),
            self.contains(id),
        ensures
            !self.detached(id).contains_key(id),
            forall|x: NodeId| self.subtree(id).contains(x) ==> !self.detached(id).contains_key(x),
            forall|x: NodeId|
                self.contains(x) && !self.subtree(id).contains(x) ==> self.detached(
                    id,
                ).contains_key(x),
            self.nodes[id].parent matches Some(p) ==> {
                &&& self.detached(id).contains_key(p)
                &&& !self.detached(id)[p].children.contains(id)
                &&& forall|c: NodeId|
                    c != id && self.nodes[p].children.contains(c) ==> self.detached(
                        id,
                    )[p].children.contains(c)
            },
    {
        let tree = self.tree();
        assert(tree.contains(id));
        tree.lemma_subtree_parts(id);
        tree.lemma_rank();
        if self.nodes[id].parent is Some {
            let p = self.nodes[id].parent.unwrap();
            assert(tree.contains(tree.root));
            assert(id != tree.root);
            assert(tree.linked_to_parent(id));
            if tree.subtree_order(id).contains(p) {
                tree.lemma_subtree_bounds(id, p);
            }
            lemma_without(self.nodes[p].children, id);
        }
    }
}

/// A visit of `visit` to an element that showed `node` returned `result`.
pub open spec fn visit_returned<R, F: FnMut(&Node) -> R>(visit: F, node: NodeView, result: R) -> bool {
    exists|n: &Node| n@ == node && #[trigger] call_ensures(visit, (n,), result)
}

/// Why a scene refused to attach an element.
#[derive(Clone, Copy, Debug, PartialEq, Eq)]
pub enum SceneError {
    /// The scene holds no element with the identity given as parent.
    MissingParent,
    /// The element already carries hierarchy links, or the scene already
    /// holds an element with its identity.
    AlreadyAttached,
}

/// A tree of elements, held in a map from identity to element.
pub struct Scene {
    nodes: HashMap<u64, Node>,
    root: NodeId,
}

impl View for Scene {
    type V = SceneView;

    closed spec fn view(&self) -> SceneView {
        SceneView {
            root: self.root,
            nodes: Map::new(
                |id: NodeId| self.nodes@.contains_key(id.0),
                |id: NodeId| self.nodes@[id.0]@,
            ),
        }
    }
}

impl Scene {
    /// The invariant of a scene; every operation of the scene keeps it.
    pub open spec fn wf(&self) -> bool {
        self@.wf()
    }

    /// Creates a scene that holds one element, its root.
    pub fn new(ids: &mut IdAllocator) -> (scene: Scene)
        requires
            old(ids).can_issue(),
        ensures
            scene.wf(),
            final(ids).next_id() == old(ids).next_id() + 1,
            scene@.root == NodeId(old(ids).next_id()),
            scene@.nodes == Map::<NodeId, NodeView>::empty().insert(
                scene@.root,
                NodeView::fresh(scene@.root),
            ),
    {
        let root = Node::new(ids);
        let root_id = root.id();
        let mut nodes: HashMap<u64, Node> = HashMap::new();
        nodes.insert(root_id.0, root);
        let scene = Scene { nodes, root: root_id };
        proof {
            let rank = |id: NodeId| 0nat;
            assert(scene@.tree().ranked(rank));
            assert(scene@.nodes =~= Map::<NodeId, NodeView>::empty().insert(
                root_id,
                NodeView::fresh(root_id),
            ));
        }
        scene
    }

    /// The identity of the root.
    pub fn root(&self) -> (root: NodeId)
        ensures
            root == self@.root,
    {
        self.root
    }

    /// Whether the scene holds an element with this identity.
    pub fn contains(&self, id: NodeId) -> (b: bool)
        ensures
            b == self@.contains(id),
    {
        self.nodes.contains_key(&id.0)
    }

    /// The element with this identity, if the scene holds it.
    pub fn get_node(&self, id: NodeId) -> (node: Option<&Node>)
        ensures
            match node {
                Some(n) => self@.contains(id) && n@ == self@.nodes[id],
                None => !self@.contains(id),
            },
    {
        self.nodes.get(&id.0)
    }

    /// The element with this identity, for writing, if the scene holds it.
    ///
    /// The scene afterwards holds what the caller left behind the reference.
    /// A caller that changes what the element shows and leaves its identity
    /// and links alone keeps the scene well formed.
    pub fn get_node_mut(&mut self, id: NodeId) -> (node: Option<&mut Node>)
        ensures
            final(self)@.root == old(self)@.root,
            match node {
                Some(n) => {
                    &&& old(self)@.contains(id)
                    &&& n@ == old(self)@.nodes[id]
                    &&& final(self)@.nodes =~= old(self)@.nodes.insert(id, final(n)@)
                },
                None => !old(self)@.contains(id) && final(self)@.nodes =~= old(self)@.nodes,
            },
    {
        match self.nodes.entry(id.0) {
            Entry::Occupied(entry) => {
                Some(entry.into_mut())
            },
            Entry::Vacant(_) => {
                None
            },
        }
    }

    /// Attaches an element below `parent`, as its last child.
    ///
    /// Nothing is attached, and the scene stays as it is, where the scene
    /// holds no element `parent`, and otherwise where the element is not
    /// detached or its identity is already in the scene.
    pub fn add_node(&mut self, parent: NodeId, node: Node) -> (outcome: Result<(), SceneError>)
        requires
            old(self).wf(),
        ensures
            final(self).wf(),
            final(self)@.root == old(self)@.root,
            match outcome {
                Ok(_) => {
                    &&& old(self)@.contains(parent)
                    &&& node@.is_detached()
                    &&& !old(self)@.contains(node@.id)
                    &&& final(self)@.nodes == old(self)@.attached(parent, node@)
                },
                Err(SceneError::MissingParent) => {
                    &&& !old(self)@.contains(parent)
                    &&& final(self)@ == old(self)@
                },
                Err(SceneError::AlreadyAttached) => {
                    &&& old(self)@.contains(parent)
                    &&& !node@.is_detached() || old(self)@.contains(node@.id)
                    &&& final(self)@ == old(self)@
                },
            },
    {
        if !self.nodes.contains_key(&parent.0) {
            return Err(SceneError::MissingParent);
        }
        let id = node.id();
        if node.parent().is_some() || node.children().len() > 0 || self.nodes.contains_key(&id.0) {
            return Err(SceneError::AlreadyAttached);
        }
        let ghost before = self@;
        let ghost given = node@;
        let mut node = node;
        node.set_parent(parent);
        match self.get_node_mut(parent) {
            Some(parent_node) => {
                parent_node.add_child(id);
            },
            None => {},
        }
        self.nodes.insert(id.0, node);
        proof {
            assert(given.children =~= Seq::<NodeId>::empty());
            assert(self@.nodes =~= before.attached(parent, given));
            assert(self@.tree().links =~= before.tree().attach(parent, id).links);
            before.tree().lemma_attach_wf(parent, id);
            assert(before.nodes[parent].id == parent);
        }
        Ok(())
    }

    /// Removes the element `id` and all its descendants, and takes `id` out
    /// of its parent's list of children. A scene that does not hold `id`
    /// stays as it is. Removing the root leaves the scene empty.
    pub fn remove_node(&mut self, id: NodeId)
        requires
            old(self).wf(),
        ensures
            final(self).wf(),
            final(self)@.root == old(self)@.root,
            old(self)@.contains(id) ==> final(self)@.nodes == old(self)@.detached(id),
            !old(self)@.contains(id) ==> final(self)@ == old(self)@,
    {
        let ghost before = self@;
        let doomed = self.order_from(id);
        let parent = match self.nodes.get(&id.0) {
            Some(node) => node.parent(),
            None => { return ; },
        };
        proof {
            before.tree().lemma_subtree_parts(id);
            before.tree().lemma_rank();
        }
        match parent {
            Some(p) => {
                match self.get_node_mut(p) {
                    Some(parent_node) => {
                        parent_node.remove_child(id);
                    },
                    None => {},
                }
            },
            None => {},
        }
        let ghost unlinked = self@;
        let n = doomed.len();
        let mut i: usize = 0;
        assert(self@.nodes =~= unlinked.nodes.remove_keys(doomed@.take(0).to_set()));
        while i < n
            invariant
                i <= n,
                n == doomed.len(),
                self.root == old(self).root,
                self@.nodes == unlinked.nodes.remove_keys(doomed@.take(i as int).to_set()),
            decreases n - i,
        {
            let x = doomed[i];
            let ghost prev = self@;
            self.nodes.remove(&x.0);
            proof {
                assert(self@.nodes =~= prev.nodes.remove(x));
                lemma_take_next(doomed@, i as int);
                assert(self@.nodes =~= unlinked.nodes.remove_keys(doomed@.take(i + 1).to_set()));
            }
            i += 1;
        }
        proof {
            assert(doomed@.take(n as int) =~= doomed@);
            let tree = before.tree();
            if parent is Some {
                let p = parent.unwrap();
                assert(tree.contains(id));
                if id != tree.root {
                    assert(tree.linked_to_parent(id));
                } else {
                    assert(tree.contains(tree.root));
                }
                if tree.subtree_order(id).contains(p) {
                    tree.lemma_subtree_bounds(id, p);
                }
            }
            assert(self@.nodes =~= before.detached(id));
            assert(self@.tree().links =~= tree.detach(id).links);
            tree.lemma_detach_wf(id);
        }
    }

    /// The identities of `start` and of all its descendants, in depth-first
    /// pre-order: an element before its children, the children in the order
    /// in which they were attached. Empty where the scene does not hold
    /// `start`.
    ///
    /// The walk keeps its pending elements on a stack of its own, so its
    /// depth is bounded by memory and not by the call stack.
    pub fn order_from(&self, start: NodeId) -> (out: Vec<NodeId>)
        requires
            self.wf(),
        ensures
            out@ == self@.subtree(start),
    {
        let mut out: Vec<NodeId> = Vec::new();
        let mut stack: Vec<NodeId> = Vec::new();
        let ghost tree = self@.tree();
        if self.nodes.contains_key(&start.0) {
            stack.push(start);
            assert(stack@.drop_last() =~= Seq::<NodeId>::empty());
            assert(tree.pending_order(Seq::<NodeId>::empty()) =~= Seq::<NodeId>::empty());
            assert(tree.pending_order(stack@) == tree.subtree_order(start) + tree.pending_order(
                stack@.drop_last(),
            ));
            assert(tree.pending_order(stack@) =~= tree.subtree_order(start));
        }
        while stack.len() > 0
            invariant
                self.wf(),
                tree == self@.tree(),
                forall|i: int| 0 <= i < stack.len() ==> tree.contains(#[trigger] stack[i]),
                out@ + tree.pending_order(stack@) == self@.subtree(start),
            decreases tree.pending_order(stack@).len(),
        {
            let ghost before = stack@;
            let id = stack.pop().unwrap();
            let ghost rest = stack@;
            assert(rest == before.drop_last());
            assert(tree.contains(id));
            match self.nodes.get(&id.0) {
                Some(node) => {
                    out.push(id);
                    let children = node.children();
                    let mut j = children.len();
                    assert(tree.forest_order(id, j as nat) =~= Seq::<NodeId>::empty());
                    assert(stack@ =~= rest);
                    while j > 0
                        invariant
                            self.wf(),
                            tree == self@.tree(),
                            tree.contains(id),
                            children@ == tree.children(id),
                            j <= children.len(),
                            forall|i: int| 0 <= i < stack.len() ==> tree.contains(#[trigger] stack[i]),
                            tree.pending_order(stack@) == tree.forest_order(id, j as nat)
                                + tree.pending_order(rest),
                        decreases j,
                    {
                        j -= 1;
                        let child = children[j];
                        let ghost below = stack@;
                        stack.push(child);
                        proof {
                            assert(stack@.last() == child);
                            assert(stack@.drop_last() =~= below);
                            assert(tree.linked_to_child(id, tree.children(id)[j as int]));
                            assert(tree.forest_order(id, j as nat) == tree.subtree_order(child)
                                + tree.forest_order(id, (j + 1) as nat));
                            assert(tree.pending_order(stack@) =~= tree.forest_order(id, j as nat)
                                + tree.pending_order(rest));
                        }
                    }
                    proof {
                        assert(tree.subtree_order(id) == seq![id] + tree.forest_order(id, 0));
                        assert(tree.pending_order(before) == tree.subtree_order(id)
                            + tree.pending_order(rest));
                        assert(out@ + tree.pending_order(stack@) =~= self@.subtree(start));
                    }
                },
                None => {},
            }
        }
        assert(tree.pending_order(stack@) =~= Seq::<NodeId>::empty());
        assert(out@ + Seq::<NodeId>::empty() =~= out@);
        out
    }

    /// The chain of elements from the root down to `id`, both included;
    /// empty where the scene does not hold `id`.
    pub fn path(&self, id: NodeId) -> (path: Vec<NodeId>)
        requires
            self.wf(),
        ensures
            path@ == self@.path(id),
    {
        let ghost tree = self@.tree();
        let mut up: Vec<NodeId> = Vec::new();
        let mut next: Option<NodeId> = if self.contains(id) {
            Some(id)
        } else {
            None
        };
        proof {
            if next is Some {
                assert(tree.contains(id));
                assert(tree.path(id) + up@.reverse() =~= tree.path(id));
            } else {
                assert(up@.reverse() =~= Seq::<NodeId>::empty());
            }
        }
        while next.is_some()
            invariant
                self.wf(),
                tree == self@.tree(),
                next matches Some(cur) ==> tree.contains(cur) && self@.contains(id) && tree.path(id)
                    == tree.path(cur) + up@.reverse(),
                next is None ==> up@.reverse() == self@.path(id),
            decreases
                    (if next is Some {
                        tree.height(tree.root) - tree.height(next.unwrap()) + 1
                    } else {
                        0
                    }),
        {
            let cur = next.unwrap();
            let ghost below = up@;
            up.push(cur);
            proof {
                tree.lemma_rank();
                assert(tree.contains(tree.root));
                assert(up@.reverse() =~= seq![cur] + below.reverse());
                if cur != tree.root {
                    assert(tree.linked_to_parent(cur));
                    let p = tree.parent(cur).unwrap();
                    assert(tree.contains(p));
                    assert(tree.path(cur) == tree.path(p).push(cur));
                    assert(tree.path(p).push(cur) + below.reverse() =~= tree.path(p) + (seq![cur]
                        + below.reverse()));
                } else {
                    assert(tree.path(cur) == seq![cur]);
                }
            }
            next =
            match self.get_node(cur) {
                Some(node) => node.parent(),
                None => None,
            };
        }
        let mut path: Vec<NodeId> = Vec::new();
        let mut i = up.len();
        while i > 0
            invariant
                i <= up.len(),
                path@ == up@.reverse().take(up.len() - i),
            decreases i,
        {
            i -= 1;
            path.push(up[i]);
            assert(path@ =~= up@.reverse().take(up.len() - i));
        }
        assert(path@ =~= up@.reverse());
        path
    }

    /// The transforms that place `id` when it is drawn, outermost first.
    ///
    /// Under `TransformMode::Local` that is the element's own transform: the
    /// element is drawn in its parent's coordinate frame as if no ancestor
    /// had a transform. Under `TransformMode::World` it is the transform of
    /// every element on the chain from the root down to `id`; the host
    /// composes them. Empty where the scene does not hold `id`.
    pub fn placement(&self, id: NodeId, mode: TransformMode) -> (chain: Vec<Transform>)
        requires
            self.wf(),
        ensures
            chain@ == self@.placement(id, mode),
    {
        let mut chain: Vec<Transform> = Vec::new();
        match mode {
            TransformMode::Local => {
                match self.get_node(id) {
                    Some(node) => {
                        chain.push(*node.transform());
                        assert(chain@ =~= self@.placement(id, mode));
                    },
                    None => {
                        assert(chain@ =~= self@.placement(id, mode));
                    },
                }
            },
            TransformMode::World => {
                let path = self.path(id);
                let n = path.len();
                let mut i: usize = 0;
                while i < n
                    invariant
                        i <= n,
                        n == path.len(),
                        self.wf(),
                        mode == TransformMode::World,
                        path@ == self@.path(id),
                        chain@ == self@.placement(id, mode).take(i as int),
                    decreases n - i,
                {
                    proof {
                        assert(self@.contains(id));
                        self@.lemma_path(id);
                        assert(self@.contains(path@[i as int]));
                    }
                    match self.get_node(path[i]) {
                        Some(node) => {
                            chain.push(*node.transform());
                        },
                        None => {},
                    }
                    proof {
                        assert(chain@ =~= self@.placement(id, mode).take(i + 1));
                    }
                    i += 1;
                }
                assert(chain@ =~= self@.placement(id, mode));
            },
        }
        chain
    }

    /// Visits every element in the order of a walk from the root: an element
    /// before its children, the children in the order in which they were
    /// attached. The result holds what `visit` returned, visit after visit. A
    /// scene without its root is walked as an empty one.
    pub fn traverse<R, F: FnMut(&Node) -> R>(&self, mut visit: F) -> (visits: Vec<R>)
        requires
            self.wf(),
            forall|node: &Node|
                self@.contains(node@.id) && node@ == self@.nodes[node@.id] ==> call_requires(
                    visit,
                    (node,),
                ),
        ensures
            visits.len() == self@.order().len(),
            forall|i: int|
                #![trigger self@.order()[i]]
                0 <= i < visits.len() ==> {
                    &&& self@.contains(self@.order()[i])
                    &&& visit_returned(visit, self@.nodes[self@.order()[i]], visits[i])
                },
    {
        let ghost order = self@.order();
        let ghost visit0 = visit;
        let ids = self.order_from(self.root);
        let mut visits: Vec<R> = Vec::new();
        let n = ids.len();
        proof {
            self@.tree().lemma_order_visits_once();
            assert forall|j: int| 0 <= j < n implies self@.contains(#[trigger] order[j]) by {
                assert(order.contains(order[j]));
                assert(self@.tree().contains(order[j]));
            }
        }
        let mut i: usize = 0;
        while i < n
            invariant
                i <= n,
                n == ids.len(),
                ids@ == order,
                order == self@.order(),
                self.wf(),
                visit == visit0,
                forall|j: int| 0 <= j < n ==> self@.contains(#[trigger] order[j]),
                forall|node: &Node|
                    self@.contains(node@.id) && node@ == self@.nodes[node@.id] ==> call_requires(
                        visit,
                        (node,),
                    ),
                visits.len() == i,
                forall|j: int|
                    #![trigger order[j]]
                    0 <= j < i ==> {
                        &&& self@.contains(order[j])
                        &&& visit_returned(visit, self@.nodes[order[j]], visits[j])
                    },
            decreases n - i,
        {
            let id = ids[i];
            let ghost prev_visits = visits@;
            assert(self@.contains(order[i as int]));
            match self.get_node(id) {
                Some(node) => {
                    assert(self@.nodes[id].id == id);
                    let result = visit(node);
                    visits.push(result);
                    proof {
                        assert forall|j: int| 0 <= j < i implies visits[j] == prev_visits[j] by {}
                        assert(visits[i as int] == result);
                        assert(node@ == self@.nodes[order[i as int]] && call_ensures(
                            visit,
                            (node,),
                            visits[i as int],
                        ));
                        assert(visit_returned(
                            visit,
                            self@.nodes[order[i as int]],
                            visits[i as int],
                        ));
                        assert forall|j: int| #![trigger order[j]] 0 <= j < i + 1 implies {
                            &&& self@.contains(order[j])
                            &&& visit_returned(visit, self@.nodes[order[j]], visits[j])
                        } by {
                            if j < i {
                                assert(visit_returned(
                                    visit,
                                    self@.nodes[order[j]],
                                    prev_visits[j],
                                ));
                            }
                        }
                    }
                },
                None => {
                    assert(false);
                },
            }
            i += 1;
        }
        visits
    }

    /// Visits every element in the order of a walk from the root and hands
    /// each to `visit`, which may change what the element shows. The result
    /// holds what `visit` returned, visit after visit.
    ///
    /// The hierarchy belongs to the scene: identity and links of each element
    /// are noted before the visit and written back after it, so the elements
    /// visited are those that the scene held at the start.
    pub fn traverse_mut<R, F: FnMut(&mut Node) -> R>(&mut self, mut visit: F) -> (visits: Vec<R>)
        requires
            old(self).wf(),
            forall|node: &mut Node|
                old(self)@.contains((*node)@.id) && (*node)@ == old(self)@.nodes[(*node)@.id]
                    ==> call_requires(visit, (node,)),
        ensures
            final(self).wf(),
            final(self)@.root == old(self)@.root,
            final(self)@.nodes.dom() == old(self)@.nodes.dom(),
            visits.len() == old(self)@.order().len(),
            forall|i: int|
                #![trigger old(self)@.order()[i]]
                0 <= i < visits.len() ==> {
                    &&& final(self)@.nodes[old(self)@.order()[i]].same_links(
                        old(self)@.nodes[old(self)@.order()[i]],
                    )
                    &&& exists|node: &mut Node|
                        #![trigger call_ensures(visit, (node,), visits[i])]
                        {
                            &&& (*node)@ == old(self)@.nodes[old(self)@.order()[i]]
                            &&& call_ensures(visit, (node,), visits[i])
                            &&& final(self)@.nodes[old(self)@.order()[i]] == (NodeView {
                                id: (*node)@.id,
                                parent: (*node)@.parent,
                                children: (*node)@.children,
                                ..(*final(node))@
                            })
                        }
                },
    {
        let ghost before = self@;
        let ghost order = self@.order();
        let ids = self.order_from(self.root);
        let mut visits: Vec<R> = Vec::new();
        let n = ids.len();
        proof {
            before.tree().lemma_order_visits_once();
            assert forall|x: NodeId| order.contains(x) <==> before.contains(x) by {
                assert(before.tree().contains(x) <==> before.contains(x));
            }
            assert forall|j: int| 0 <= j < n implies before.contains(#[trigger] order[j]) by {
                assert(order.contains(order[j]));
            }
        }
        let ghost visit0 = visit;
        let mut i: usize = 0;
        while i < n
            invariant
                i <= n,
                visit == visit0,
                n == ids.len(),
                ids@ == order,
                order == before.order(),
                before.wf(),
                before == old(self)@,
                order.no_duplicates(),
                forall|x: NodeId| order.contains(x) <==> before.contains(x),
                forall|j: int| 0 <= j < n ==> before.contains(#[trigger] order[j]),
                forall|node: &mut Node|
                    before.contains((*node)@.id) && (*node)@ == before.nodes[(*node)@.id]
                        ==> call_requires(visit, (node,)),
                self@.root == before.root,
                self@.nodes.dom() == before.nodes.dom(),
                forall|x: NodeId| before.contains(x) ==> self@.nodes[x].same_links(before.nodes[x]),
                forall|j: int| i <= j < n ==> self@.nodes[order[j]] == before.nodes[order[j]],
                visits.len() == i,
                forall|j: int|
                    #![trigger order[j]]
                    0 <= j < i ==> {
                        &&& self@.nodes[order[j]].same_links(before.nodes[order[j]])
                        &&& exists|node: &mut Node|
                            #![trigger call_ensures(visit, (node,), visits[j])]
                            {
                                &&& (*node)@ == before.nodes[order[j]]
                                &&& call_ensures(visit, (node,), visits[j])
                                &&& self@.nodes[order[j]] == (NodeView {
                                    id: (*node)@.id,
                                    parent: (*node)@.parent,
                                    children: (*node)@.children,
                                    ..(*final(node))@
                                })
                            }
                    },
            decreases n - i,
        {
            let id = ids[i];
            let ghost prev = self@;
            let ghost prev_visits = visits@;
            assert(order.contains(id));
            match self.nodes.remove(&id.0) {
                Some(node) => {
                    let mut node = node;
                    let parent = node.parent();
                    let children = node.child_list();
                    let ghost node0 = node;
                    assert(node0@ == before.nodes[id] && before.nodes[id].id == id);
                    let result = visit(&mut node);
                    let ghost node1 = node;
                    node.set_links(id, parent, children);
                    self.nodes.insert(id.0, node);
                    visits.push(result);
                    proof {
                        assert(self@.nodes =~= prev.nodes.insert(id, node@));
                        assert(self@.nodes.dom() =~= before.nodes.dom());
                        assert(before.nodes[id].id == id);
                        assert forall|j: int| 0 <= j < n && j != i implies order[j] != id by {}
                        assert forall|j: int| 0 <= j < n implies before.contains(order[j]) by {
                            assert(order.contains(order[j]));
                        }
                        assert forall|j: int| 0 <= j < i implies visits[j] == prev_visits[j] by {}
                        assert(self@.nodes[id] == (NodeView {
                            id: node0@.id,
                            parent: node0@.parent,
                            children: node0@.children,
                            ..node1@
                        }));
                        assert forall|j: int| 0 <= j < i implies self@.nodes[order[j]]
                            == prev.nodes[order[j]] by {}
                        assert(visits[i as int] == result);
                        assert(exists|m: &mut Node|
                            #![trigger call_ensures(visit, (m,), visits[i as int])]
                            {
                                &&& (*m)@ == before.nodes[order[i as int]]
                                &&& call_ensures(visit, (m,), visits[i as int])
                                &&& self@.nodes[order[i as int]] == (NodeView {
                                    id: (*m)@.id,
                                    parent: (*m)@.parent,
                                    children: (*m)@.children,
                                    ..(*final(m))@
                                })
                            });
                    }
                },
                None => {
                    assert(false);
                },
            }
            i += 1;
        }
        proof {
            lemma_same_links_same_tree(before, self@);
        }
        visits
    }
}

} // verus!
