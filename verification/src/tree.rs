//! The hierarchy of a scene as a mathematical value: which element hangs
//! below which, what makes that a tree, and the order in which a walk visits
//! its elements.

use vstd::prelude::*;
use crate::node::NodeId;
use crate::sequences::{lemma_without, without};

verus! {

/// The hierarchy links of one element.
pub struct Links {
    pub parent: Option<NodeId>,
    pub children: Seq<NodeId>,
}

/// The hierarchy of a scene: the links of every element, and the identity of
/// the root.
pub struct Tree {
    pub root: NodeId,
    pub links: Map<NodeId, Links>,
}

impl Tree {
    pub open spec fn contains(self, id: NodeId) -> bool {
        self.links.contains_key(id)
    }

    pub open spec fn parent(self, id: NodeId) -> Option<NodeId> {
        self.links[id].parent
    }

    pub open spec fn children(self, id: NodeId) -> Seq<NodeId> {
        self.links[id].children
    }

    /// The element points to a parent that exists and lists it as a child.
    pub open spec fn linked_to_parent(self, id: NodeId) -> bool {
        &&& self.parent(id) is Some
        &&& self.contains(self.parent(id).unwrap())
        &&& self.children(self.parent(id).unwrap()).contains(id)
    }

    /// The child exists and points back to the parent.
    pub open spec fn linked_to_child(self, parent: NodeId, child: NodeId) -> bool {
        &&& self.contains(child)
        &&& self.parent(child) == Some(parent)
    }

    /// Parent and child links agree with each other: the root has no parent,
    /// every other element hangs below an element that lists it, no element
    /// is listed twice, and whatever is listed exists and points back. A
    /// hierarchy without its root is empty.
    pub open spec fn links_wf(self) -> bool {
        &&& forall|id: NodeId| #[trigger] self.contains(id) ==> self.contains(self.root)
        &&& self.contains(self.root) ==> self.parent(self.root) is None
        &&& forall|id: NodeId|
            #[trigger] self.contains(id) && id != self.root ==> self.linked_to_parent(id)
        &&& forall|id: NodeId| #[trigger] self.contains(id) ==> self.children(id).no_duplicates()
        &&& forall|id: NodeId, i: int|
            self.contains(id) && 0 <= i < self.children(id).len() ==> self.linked_to_child(
                id,
                #[trigger] self.children(id)[i],
            )
    }

    /// A ranking shows that the links hold no cycle: every element ranks
    /// strictly below its parent, and none ranks above the root.
    pub open spec fn ranked(self, rank: spec_fn(NodeId) -> nat) -> bool {
        forall|id: NodeId| #[trigger]
            self.contains(id) ==> {
                &&& rank(id) <= rank(self.root)
                &&& id != self.root ==> rank(id) < rank(self.parent(id).unwrap())
            }
    }

    /// The links form a tree below the root.
    pub open spec fn wf(self) -> bool {
        &&& self.links_wf()
        &&& exists|rank: spec_fn(NodeId) -> nat| self.ranked(rank)
    }

    /// Some ranking of a well-formed hierarchy.
    pub open spec fn rank(self) -> spec_fn(NodeId) -> nat {
        choose|rank: spec_fn(NodeId) -> nat| self.ranked(rank)
    }

    /// The rank of an element under that ranking.
    pub open spec fn height(self, id: NodeId) -> nat {
        (self.rank())(id)
    }

    /// The element and everything below it, in depth-first pre-order: the
    /// element first, then the subtree of each child, child after child in the
    /// order of the list of children.
    pub open spec fn subtree_order(self, id: NodeId) -> Seq<NodeId>
        decreases self.height(id), 1nat, 0nat,
        when self.wf() && self.contains(id)
    {
        seq![id] + self.forest_order(id, 0)
    }

    /// The subtrees of the children of `id` from position `from` on, one
    /// after the other.
    pub open spec fn forest_order(self, id: NodeId, from: nat) -> Seq<NodeId>
        decreases self.height(id), 0nat, self.children(id).len() - from,
        when self.wf() && self.contains(id)
    {
        if from >= self.children(id).len() {
            Seq::empty()
        } else {
            self.subtree_order(self.children(id)[from as int]) + self.forest_order(id, from + 1)
        }
    }

    /// The order in which a walk from the root visits the elements. A
    /// hierarchy without its root is visited as an empty one.
    pub open spec fn order(self) -> Seq<NodeId> {
        if self.contains(self.root) {
            self.subtree_order(self.root)
        } else {
            Seq::empty()
        }
    }

    /// The chain of elements from the root down to `id`, both included.
    pub open spec fn path(self, id: NodeId) -> Seq<NodeId>
        decreases self.height(self.root) - self.height(id),
        when self.wf() && self.contains(id)
    {
        if id == self.root {
            seq![id]
        } else {
            self.path(self.parent(id).unwrap()).push(id)
        }
    }

    /// What a walk still has to visit when `stack` holds the elements whose
    /// subtrees are pending, the next one on top (at the end).
    pub open spec fn pending_order(self, stack: Seq<NodeId>) -> Seq<NodeId>
        decreases stack.len(),
    {
        if stack.len() == 0 {
            Seq::empty()
        } else {
            self.subtree_order(stack.last()) + self.pending_order(stack.drop_last())
        }
    }

    /// The hierarchy after `id` was attached below `parent` as its last
    /// child, with no children of its own.
    pub open spec fn attach(self, parent: NodeId, id: NodeId) -> Tree {
        Tree {
            root: self.root,
            links: self.links.insert(
                parent,
                Links { parent: self.parent(parent), children: self.children(parent).push(id) },
            ).insert(id, Links { parent: Some(parent), children: Seq::empty() }),
        }
    }

    /// The hierarchy after `id` and all its descendants were taken out: they
    /// are gone, the former parent of `id` no longer lists it, and every
    /// other element is as it was.
    pub open spec fn detach(self, id: NodeId) -> Tree {
        Tree {
            root: self.root,
            links: Map::new(
                |x: NodeId| self.contains(x) && !self.subtree_order(id).contains(x),
                |x: NodeId|
                    if self.parent(id) == Some(x) {
                        Links { parent: self.parent(x), children: without(self.children(x), id) }
                    } else {
                        self.links[x]
                    },
            ),
        }
    }

    /// Attaching a new element below an existing one keeps the hierarchy a
    /// tree.
    pub proof fn lemma_attach_wf(self, parent: NodeId, id: NodeId)
        requires
            self.wf(),
            self.contains(parent),
            !self.contains(id),
        ensures
            self.attach(parent, id).wf(),
    {
        let after = self.attach(parent, id);
        let old_rank = self.rank();
        let rank = |x: NodeId| if x == id { 0nat } else { (old_rank(x) + 1) as nat };
        assert(self.contains(self.root));
        assert forall|x: NodeId| #[trigger] after.contains(x) && x != after.root implies after.linked_to_parent(x) by {
            if x != id {
                assert(self.contains(x));
                assert(self.linked_to_parent(x));
                let p = self.parent(x).unwrap();
                let k = choose|k: int| 0 <= k < self.children(p).len() && self.children(p)[k] == x;
                assert(after.children(p)[k] == x);
            } else {
                assert(after.children(parent)[self.children(parent).len() as int] == id);
            }
        }
        assert forall|x: NodeId| #[trigger] after.contains(x) implies after.children(x).no_duplicates() by {
            if x == parent {
                let old_children = self.children(parent);
                assert forall|i: int| 0 <= i < old_children.len() implies old_children[i] != id by {
                    assert(self.linked_to_child(parent, old_children[i]));
                }
            } else if x != id {
                assert(self.contains(x));
            }
        }
        assert forall|x: NodeId, i: int|
            after.contains(x) && 0 <= i < after.children(x).len() implies after.linked_to_child(
            x,
            #[trigger] after.children(x)[i],
        ) by {
            if x == parent && i == self.children(parent).len() {
            } else {
                assert(x != id);
                assert(self.linked_to_child(x, self.children(x)[i]));
            }
        }
        assert(after.links_wf());
        assert forall|x: NodeId| #[trigger] after.contains(x) implies {
            &&& rank(x) <= rank(after.root)
            &&& x != after.root ==> rank(x) < rank(after.parent(x).unwrap())
        } by {
            if x != id {
                assert(self.contains(x));
                if x != self.root {
                    assert(self.linked_to_parent(x));
                }
            }
        }
        assert(after.ranked(rank));
    }

    /// Taking an element out with all its descendants keeps the hierarchy a
    /// tree.
    pub proof fn lemma_detach_wf(self, id: NodeId)
        requires
            self.wf(),
            self.contains(id),
        ensures
            self.detach(id).wf(),
    {
        let after = self.detach(id);
        let gone = self.subtree_order(id);
        self.lemma_rank();
        self.lemma_subtree_parts(id);
        assert(self.contains(self.root));
        assert forall|x: NodeId| after.contains(x) implies after.children(x) == (if self.parent(id)
            == Some(x) {
            without(self.children(x), id)
        } else {
            self.children(x)
        }) && after.parent(x) == self.parent(x) by {}
        if after.contains(self.root) {
        } else {
            assert forall|x: NodeId| !after.contains(x) by {
                if self.contains(x) && !gone.contains(x) {
                    if self.root != id {
                        self.lemma_subtree_parent(id, self.root);
                    } else {
                        self.lemma_order_reaches(x);
                    }
                }
            }
        }
        assert forall|x: NodeId| #[trigger] after.contains(x) && x != after.root implies after.linked_to_parent(x) by {
            assert(self.linked_to_parent(x));
            let p = self.parent(x).unwrap();
            if gone.contains(p) {
                self.lemma_subtree_child(id, x);
            }
            lemma_without(self.children(p), id);
        }
        assert forall|x: NodeId| #[trigger] after.contains(x) implies after.children(x).no_duplicates() by {
            assert(self.children(x).no_duplicates());
            lemma_without(self.children(x), id);
        }
        assert forall|x: NodeId, i: int|
            after.contains(x) && 0 <= i < after.children(x).len() implies after.linked_to_child(
            x,
            #[trigger] after.children(x)[i],
        ) by {
            let c = after.children(x)[i];
            lemma_without(self.children(x), id);
            assert(after.children(x).contains(c));
            assert(self.children(x).contains(c));
            let k = choose|k: int| 0 <= k < self.children(x).len() && self.children(x)[k] == c;
            assert(self.linked_to_child(x, self.children(x)[k]));
            if gone.contains(c) {
                if c != id {
                    self.lemma_subtree_parent(id, c);
                }
            }
        }
        assert(after.links_wf());
        assert(after.ranked(self.rank()));
    }
}

} // verus!
