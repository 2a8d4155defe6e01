//! What holds of the visiting order of a well-formed hierarchy.

use vstd::prelude::*;
use crate::node::NodeId;
use crate::sequences::{
    lemma_concat_contains, lemma_precedes_across, lemma_precedes_in_back, lemma_precedes_in_front,
    precedes,
};
use crate::tree::Tree;

verus! {

impl Tree {
    /// The ranking that `rank` picks is one.
    pub proof fn lemma_rank(self)
        requires
            self.wf(),
        ensures
            self.ranked(self.rank()),
    {
    }

    /// A child is an element of its own, ranks below its parent and starts
    /// its subtree.
    pub proof fn lemma_child(self, id: NodeId, k: int)
        requires
            self.wf(),
            self.contains(id),
            0 <= k < self.children(id).len(),
        ensures
            self.contains(self.children(id)[k]),
            self.children(id)[k] != self.root,
            self.children(id)[k] != id,
            self.parent(self.children(id)[k]) == Some(id),
            self.height(self.children(id)[k]) < self.height(id),
            self.subtree_order(self.children(id)[k]).len() > 0,
            self.subtree_order(self.children(id)[k])[0] == self.children(id)[k],
            self.subtree_order(self.children(id)[k]).contains(self.children(id)[k]),
    {
        self.lemma_rank();
        let c = self.children(id)[k];
        assert(self.linked_to_child(id, c));
        assert(self.contains(self.root));
    }

    /// What the subtrees of the children from `from` on hold lies in the
    /// subtree of one of those children; the result is the position of such a
    /// child.
    pub proof fn lemma_forest_member(self, id: NodeId, from: nat, y: NodeId) -> (k: int)
        requires
            self.wf(),
            self.contains(id),
            self.forest_order(id, from).contains(y),
        ensures
            from <= k < self.children(id).len(),
            self.subtree_order(self.children(id)[k]).contains(y),
        decreases self.children(id).len() - from,
    {
        if from >= self.children(id).len() {
            assert(false);
            0
        } else {
            let front = self.subtree_order(self.children(id)[from as int]);
            let back = self.forest_order(id, from + 1);
            lemma_concat_contains(front, back, y);
            if front.contains(y) {
                from as int
            } else {
                self.lemma_forest_member(id, from + 1, y)
            }
        }
    }

    /// What lies in the subtree of the child at position `k` lies in the
    /// subtrees of the children from any position up to `k` on.
    pub proof fn lemma_forest_holds(self, id: NodeId, from: nat, k: int, y: NodeId)
        requires
            self.wf(),
            self.contains(id),
            from <= k < self.children(id).len(),
            self.subtree_order(self.children(id)[k]).contains(y),
        ensures
            self.forest_order(id, from).contains(y),
        decreases k - from,
    {
        let front = self.subtree_order(self.children(id)[from as int]);
        let back = self.forest_order(id, from + 1);
        lemma_concat_contains(front, back, y);
        if from < k {
            self.lemma_forest_holds(id, from + 1, k, y);
        }
    }

    /// A subtree starts with its own root, and what lies in the subtrees of
    /// the children lies in it.
    pub proof fn lemma_subtree_parts(self, id: NodeId)
        requires
            self.wf(),
            self.contains(id),
        ensures
            self.subtree_order(id) == seq![id] + self.forest_order(id, 0),
            self.subtree_order(id).len() > 0,
            self.subtree_order(id)[0] == id,
            self.subtree_order(id).contains(id),
            forall|y: NodeId|
                self.subtree_order(id).contains(y) <==> y == id || self.forest_order(
                    id,
                    0,
                ).contains(y),
    {
        let s = self.subtree_order(id);
        assert(s[0] == id);
        assert forall|y: NodeId|
            s.contains(y) <==> y == id || self.forest_order(id, 0).contains(y) by {
            lemma_concat_contains(seq![id], self.forest_order(id, 0), y);
            if seq![id].contains(y) {
                let i = choose|i: int| 0 <= i < seq![id].len() && seq![id][i] == y;
            }
            if y == id {
                assert(seq![id][0] == y);
            }
        }
    }

    /// Whatever a subtree holds is an element of the hierarchy and ranks no
    /// higher than the root of the subtree, and lower unless it is that root.
    pub proof fn lemma_subtree_bounds(self, id: NodeId, y: NodeId)
        requires
            self.wf(),
            self.contains(id),
            self.subtree_order(id).contains(y),
        ensures
            self.contains(y),
            self.height(y) <= self.height(id),
            y != id ==> self.height(y) < self.height(id),
        decreases self.height(id),
    {
        self.lemma_subtree_parts(id);
        if y != id {
            let k = self.lemma_forest_member(id, 0, y);
            self.lemma_child(id, k);
            self.lemma_subtree_bounds(self.children(id)[k], y);
        }
    }

    /// A subtree holds, with every element but its root, the parent of that
    /// element.
    pub proof fn lemma_subtree_parent(self, id: NodeId, y: NodeId)
        requires
            self.wf(),
            self.contains(id),
            self.subtree_order(id).contains(y),
            y != id,
        ensures
            self.parent(y) is Some,
            self.subtree_order(id).contains(self.parent(y).unwrap()),
        decreases self.height(id),
    {
        self.lemma_subtree_parts(id);
        let k = self.lemma_forest_member(id, 0, y);
        self.lemma_child(id, k);
        let c = self.children(id)[k];
        if y != c {
            self.lemma_subtree_parent(c, y);
            self.lemma_forest_holds(id, 0, k, self.parent(y).unwrap());
        }
    }

    /// A subtree holds the whole subtree of each of its elements.
    pub proof fn lemma_subtree_transitive(self, id: NodeId, p: NodeId, z: NodeId)
        requires
            self.wf(),
            self.contains(id),
            self.subtree_order(id).contains(p),
            self.subtree_order(p).contains(z),
        ensures
            self.subtree_order(id).contains(z),
        decreases self.height(id),
    {
        self.lemma_subtree_parts(id);
        if p != id {
            let k = self.lemma_forest_member(id, 0, p);
            self.lemma_child(id, k);
            self.lemma_subtree_transitive(self.children(id)[k], p, z);
            self.lemma_forest_holds(id, 0, k, z);
        }
    }

    /// A subtree that holds the parent of an element holds the element.
    pub proof fn lemma_subtree_child(self, id: NodeId, x: NodeId)
        requires
            self.wf(),
            self.contains(id),
            self.contains(x),
            x != self.root,
            self.subtree_order(id).contains(self.parent(x).unwrap()),
        ensures
            self.subtree_order(id).contains(x),
    {
        let p = self.parent(x).unwrap();
        assert(self.linked_to_parent(x));
        let k = choose|k: int| 0 <= k < self.children(p).len() && self.children(p)[k] == x;
        self.lemma_child(p, k);
        self.lemma_forest_holds(p, 0, k, x);
        self.lemma_subtree_parts(p);
        self.lemma_subtree_transitive(id, p, x);
    }

    /// The walk from the root reaches every element.
    pub proof fn lemma_order_reaches(self, x: NodeId)
        requires
            self.wf(),
            self.contains(x),
        ensures
            self.order().contains(x),
        decreases self.height(self.root) - self.height(x),
    {
        self.lemma_rank();
        assert(self.contains(self.root));
        self.lemma_subtree_parts(self.root);
        if x != self.root {
            assert(self.linked_to_parent(x));
            let p = self.parent(x).unwrap();
            self.lemma_order_reaches(p);
            self.lemma_subtree_child(self.root, x);
        }
    }

    /// Two subtrees that share an element are nested: one holds the root of
    /// the other.
    pub proof fn lemma_subtrees_nested(self, a: NodeId, b: NodeId, y: NodeId)
        requires
            self.wf(),
            self.contains(a),
            self.contains(b),
            self.subtree_order(a).contains(y),
            self.subtree_order(b).contains(y),
        ensures
            self.subtree_order(a).contains(b) || self.subtree_order(b).contains(a),
        decreases self.height(self.root) - self.height(y),
    {
        self.lemma_rank();
        if y != a && y != b {
            self.lemma_subtree_bounds(a, y);
            self.lemma_subtree_parent(a, y);
            self.lemma_subtree_parent(b, y);
            let p = self.parent(y).unwrap();
            self.lemma_subtree_bounds(a, p);
            assert(self.contains(self.root));
            assert(y != self.root);
            self.lemma_subtrees_nested(a, b, p);
        }
    }

    /// The subtrees of two different children of one element share nothing.
    pub proof fn lemma_sibling_subtrees_disjoint(self, id: NodeId, i: int, j: int, y: NodeId)
        requires
            self.wf(),
            self.contains(id),
            0 <= i < self.children(id).len(),
            0 <= j < self.children(id).len(),
            i != j,
            self.subtree_order(self.children(id)[i]).contains(y),
        ensures
            !self.subtree_order(self.children(id)[j]).contains(y),
    {
        let ci = self.children(id)[i];
        let cj = self.children(id)[j];
        self.lemma_child(id, i);
        self.lemma_child(id, j);
        assert(ci != cj);
        if self.subtree_order(cj).contains(y) {
            self.lemma_subtrees_nested(ci, cj, y);
            if self.subtree_order(ci).contains(cj) {
                self.lemma_subtree_parent(ci, cj);
                self.lemma_subtree_bounds(ci, id);
            } else {
                self.lemma_subtree_parent(cj, ci);
                self.lemma_subtree_bounds(cj, id);
            }
        }
    }

    /// The subtrees of the children from `from` on hold nothing twice, if
    /// none of those subtrees does.
    proof fn lemma_forest_no_duplicates(self, id: NodeId, from: nat)
        requires
            self.wf(),
            self.contains(id),
            forall|k: int|
                0 <= k < self.children(id).len() ==> #[trigger] self.subtree_order(
                    self.children(id)[k],
                ).no_duplicates(),
        ensures
            self.forest_order(id, from).no_duplicates(),
        decreases self.children(id).len() - from,
    {
        if from < self.children(id).len() {
            let front = self.subtree_order(self.children(id)[from as int]);
            let back = self.forest_order(id, from + 1);
            self.lemma_forest_no_duplicates(id, from + 1);
            assert forall|i: int, j: int| 0 <= i < front.len() && 0 <= j < back.len() implies front[i]
                != back[j] by {
                if front[i] == back[j] {
                    let y = front[i];
                    assert(back.contains(y));
                    assert(front.contains(y));
                    let k = self.lemma_forest_member(id, from + 1, y);
                    self.lemma_sibling_subtrees_disjoint(id, from as int, k, y);
                }
            }
            vstd::seq_lib::lemma_no_dup_in_concat(front, back);
        }
    }

    /// A subtree holds nothing twice.
    pub proof fn lemma_subtree_no_duplicates(self, id: NodeId)
        requires
            self.wf(),
            self.contains(id),
        ensures
            self.subtree_order(id).no_duplicates(),
        decreases self.height(id),
    {
        assert forall|k: int| 0 <= k < self.children(id).len() implies #[trigger] self.subtree_order(
            self.children(id)[k],
        ).no_duplicates() by {
            self.lemma_child(id, k);
            self.lemma_subtree_no_duplicates(self.children(id)[k]);
        }
        self.lemma_forest_no_duplicates(id, 0);
        self.lemma_subtree_parts(id);
        let front = seq![id];
        let back = self.forest_order(id, 0);
        assert forall|i: int, j: int| 0 <= i < front.len() && 0 <= j < back.len() implies front[i]
            != back[j] by {
            if front[i] == back[j] {
                assert(back.contains(id));
                let k = self.lemma_forest_member(id, 0, id);
                self.lemma_child(id, k);
                self.lemma_subtree_bounds(self.children(id)[k], id);
            }
        }
        vstd::seq_lib::lemma_no_dup_in_concat(front, back);
    }

    /// What stands in order in the subtree of an element that lies in the
    /// subtrees of the children from `from` on stands in order there, if
    /// that holds of each child's subtree.
    proof fn lemma_forest_keeps_order(self, id: NodeId, from: nat, p: NodeId, a: NodeId, b: NodeId)
        requires
            self.wf(),
            self.contains(id),
            self.forest_order(id, from).contains(p),
            forall|k: int|
                0 <= k < self.children(id).len() && self.subtree_order(
                    self.children(id)[k],
                ).contains(p) ==> precedes(#[trigger] self.subtree_order(self.children(id)[k]), a, b),
        ensures
            precedes(self.forest_order(id, from), a, b),
        decreases self.children(id).len() - from,
    {
        if from < self.children(id).len() {
            let front = self.subtree_order(self.children(id)[from as int]);
            let back = self.forest_order(id, from + 1);
            lemma_concat_contains(front, back, p);
            if front.contains(p) {
                lemma_precedes_in_front(front, back, a, b);
            } else {
                self.lemma_forest_keeps_order(id, from + 1, p, a, b);
                lemma_precedes_in_back(front, back, a, b);
            }
        }
    }

    /// What stands in order in the subtree of an element stands in order in
    /// every subtree that holds the element.
    pub proof fn lemma_subtree_keeps_order(self, id: NodeId, p: NodeId, a: NodeId, b: NodeId)
        requires
            self.wf(),
            self.contains(id),
            self.subtree_order(id).contains(p),
            precedes(self.subtree_order(p), a, b),
        ensures
            precedes(self.subtree_order(id), a, b),
        decreases self.height(id),
    {
        self.lemma_subtree_parts(id);
        if p != id {
            assert forall|k: int|
                0 <= k < self.children(id).len() && self.subtree_order(
                    self.children(id)[k],
                ).contains(p) implies precedes(
                #[trigger] self.subtree_order(self.children(id)[k]),
                a,
                b,
            ) by {
                self.lemma_child(id, k);
                self.lemma_subtree_keeps_order(self.children(id)[k], p, a, b);
            }
            self.lemma_forest_keeps_order(id, 0, p, a, b);
            lemma_precedes_in_back(seq![id], self.forest_order(id, 0), a, b);
        }
    }

    /// The walk visits every element once.
    pub proof fn lemma_order_visits_once(self)
        requires
            self.wf(),
        ensures
            self.order().no_duplicates(),
            forall|x: NodeId| self.order().contains(x) <==> self.contains(x),
    {
        if self.contains(self.root) {
            self.lemma_subtree_no_duplicates(self.root);
        }
        assert forall|x: NodeId| self.order().contains(x) <==> self.contains(x) by {
            if self.order().contains(x) {
                self.lemma_subtree_bounds(self.root, x);
            }
            if self.contains(x) {
                self.lemma_order_reaches(x);
            }
        }
    }

    /// The walk visits an element after its parent.
    pub proof fn lemma_parent_first(self, x: NodeId)
        requires
            self.wf(),
            self.contains(x),
            x != self.root,
        ensures
            self.parent(x) is Some,
            precedes(self.order(), self.parent(x).unwrap(), x),
    {
        assert(self.linked_to_parent(x));
        let p = self.parent(x).unwrap();
        let k = choose|k: int| 0 <= k < self.children(p).len() && self.children(p)[k] == x;
        self.lemma_child(p, k);
        self.lemma_forest_holds(p, 0, k, x);
        self.lemma_subtree_parts(p);
        lemma_precedes_across(seq![p], self.forest_order(p, 0), p, x);
        self.lemma_order_reaches(p);
        self.lemma_subtree_keeps_order(self.root, p, p, x);
    }

    /// The subtrees of the children from `from` on are the back part of the
    /// subtrees of the children from an earlier position on.
    proof fn lemma_forest_back(self, id: NodeId, from: nat, to: nat, a: NodeId, b: NodeId)
        requires
            self.wf(),
            self.contains(id),
            from <= to <= self.children(id).len(),
            precedes(self.forest_order(id, to), a, b),
        ensures
            precedes(self.forest_order(id, from), a, b),
        decreases to - from,
    {
        if from < to {
            self.lemma_forest_back(id, from + 1, to, a, b);
            lemma_precedes_in_back(
                self.subtree_order(self.children(id)[from as int]),
                self.forest_order(id, from + 1),
                a,
                b,
            );
        }
    }

    /// The walk visits the children of an element in the order of its list
    /// of children.
    pub proof fn lemma_siblings_in_order(self, p: NodeId, i: int, j: int)
        requires
            self.wf(),
            self.contains(p),
            0 <= i < j < self.children(p).len(),
        ensures
            precedes(self.order(), self.children(p)[i], self.children(p)[j]),
    {
        let ci = self.children(p)[i];
        let cj = self.children(p)[j];
        self.lemma_child(p, i);
        self.lemma_child(p, j);
        self.lemma_forest_holds(p, (i + 1) as nat, j, cj);
        lemma_precedes_across(
            self.subtree_order(ci),
            self.forest_order(p, (i + 1) as nat),
            ci,
            cj,
        );
        assert(precedes(self.forest_order(p, i as nat), ci, cj));
        self.lemma_forest_back(p, 0, i as nat, ci, cj);
        self.lemma_subtree_parts(p);
        lemma_precedes_in_back(seq![p], self.forest_order(p, 0), ci, cj);
        self.lemma_order_reaches(p);
        self.lemma_subtree_keeps_order(self.root, p, ci, cj);
    }

    /// The chain to an element starts at the root, ends at the element, and
    /// each of its elements is the parent of the next.
    pub proof fn lemma_path(self, id: NodeId)
        requires
            self.wf(),
            self.contains(id),
        ensures
            self.path(id).len() > 0,
            self.path(id)[0] == self.root,
            self.path(id).last() == id,
            forall|i: int| 0 <= i < self.path(id).len() ==> self.contains(#[trigger] self.path(id)[i]),
            forall|i: int|
                0 < i < self.path(id).len() ==> self.parent(#[trigger] self.path(id)[i]) == Some(
                    self.path(id)[i - 1],
                ),
        decreases self.height(self.root) - self.height(id),
    {
        self.lemma_rank();
        assert(self.contains(self.root));
        if id != self.root {
            assert(self.linked_to_parent(id));
            let p = self.parent(id).unwrap();
            self.lemma_path(p);
            assert(self.path(id) == self.path(p).push(id));
        }
    }
}

} // verus!
