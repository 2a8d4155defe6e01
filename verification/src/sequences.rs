//! Sequences of identities: what it means to take an identity out of one, to
//! stand before another element in one, and what filtering keeps.

use vstd::prelude::*;
use crate::node::NodeId;

verus! {

/// The test that keeps every identity but `id`.
pub open spec fn other_than(id: NodeId) -> spec_fn(NodeId) -> bool {
    |c: NodeId| c != id
}

/// The sequence without every occurrence of `id`, the rest in its order.
pub open spec fn without(s: Seq<NodeId>, id: NodeId) -> Seq<NodeId> {
    s.filter(other_than(id))
}

/// What `without` keeps, and that it keeps a sequence free of duplicates.
pub proof fn lemma_without(s: Seq<NodeId>, id: NodeId)
    ensures
        forall|x: NodeId| #[trigger] without(s, id).contains(x) <==> s.contains(x) && x != id,
        s.no_duplicates() ==> without(s, id).no_duplicates(),
        !s.contains(id) ==> without(s, id) == s,
    decreases s.len(),
{
    reveal(Seq::filter);
    if s.len() > 0 {
        let front = s.drop_last();
        let last = s.last();
        let kept = without(front, id);
        lemma_without(front, id);
        assert(s =~= front.push(last));
        assert(other_than(id)(last) == (last != id));
        assert(without(s, id) == if last != id { kept.push(last) } else { kept });
        assert forall|x: NodeId| s.contains(x) <==> front.contains(x) || x == last by {
            if s.contains(x) {
                let j = choose|j: int| 0 <= j < s.len() && s[j] == x;
                if j < s.len() - 1 {
                    assert(front[j] == x);
                }
            }
            if front.contains(x) {
                let j = choose|j: int| 0 <= j < front.len() && front[j] == x;
                assert(s[j] == x);
            }
            if x == last {
                assert(s[s.len() - 1] == x);
            }
        }
        assert forall|x: NodeId| #[trigger] without(s, id).contains(x) <==> s.contains(x) && x != id by {
            if without(s, id).contains(x) {
                let i = choose|i: int| 0 <= i < without(s, id).len() && without(s, id)[i] == x;
                if i < kept.len() {
                    assert(kept[i] == x);
                    assert(kept.contains(x));
                }
            }
            if s.contains(x) && x != id {
                if front.contains(x) {
                    assert(kept.contains(x));
                    let i = choose|i: int| 0 <= i < kept.len() && kept[i] == x;
                    assert(without(s, id)[i] == x);
                } else {
                    assert(without(s, id)[kept.len() as int] == x);
                }
            }
        }
        if s.no_duplicates() {
            assert(front.no_duplicates());
            assert(!front.contains(last)) by {
                if front.contains(last) {
                    let j = choose|j: int| 0 <= j < front.len() && front[j] == last;
                    assert(s[j] == s[s.len() - 1]);
                }
            }
            assert(!kept.contains(last));
        }
        if !s.contains(id) {
            assert(without(s, id) =~= s);
        }
    } else {
        assert(without(s, id) =~= s);
    }
}

/// `a` stands somewhere before `b` in `s`.
pub open spec fn precedes(s: Seq<NodeId>, a: NodeId, b: NodeId) -> bool {
    exists|i: int, j: int| 0 <= i < j < s.len() && s[i] == a && s[j] == b
}

/// What stands in order in the back part of a sequence stands in order in the
/// whole.
pub proof fn lemma_precedes_in_back(front: Seq<NodeId>, back: Seq<NodeId>, a: NodeId, b: NodeId)
    requires
        precedes(back, a, b),
    ensures
        precedes(front + back, a, b),
{
    let (i, j) = choose|i: int, j: int| 0 <= i < j < back.len() && back[i] == a && back[j] == b;
    let s = front + back;
    assert(s[front.len() + i] == a && s[front.len() + j] == b);
}

/// What stands in order in the front part of a sequence stands in order in
/// the whole.
pub proof fn lemma_precedes_in_front(front: Seq<NodeId>, back: Seq<NodeId>, a: NodeId, b: NodeId)
    requires
        precedes(front, a, b),
    ensures
        precedes(front + back, a, b),
{
    let (i, j) = choose|i: int, j: int| 0 <= i < j < front.len() && front[i] == a && front[j] == b;
    let s = front + back;
    assert(s[i] == a && s[j] == b);
}

/// An element of the front part stands before an element of the back part.
pub proof fn lemma_precedes_across(front: Seq<NodeId>, back: Seq<NodeId>, a: NodeId, b: NodeId)
    requires
        front.contains(a),
        back.contains(b),
    ensures
        precedes(front + back, a, b),
{
    let i = choose|i: int| 0 <= i < front.len() && front[i] == a;
    let j = choose|j: int| 0 <= j < back.len() && back[j] == b;
    let s = front + back;
    assert(s[i] == a && s[front.len() + j] == b);
}

/// An element of a concatenation is an element of one of its parts.
pub proof fn lemma_concat_contains(front: Seq<NodeId>, back: Seq<NodeId>, x: NodeId)
    ensures
        (front + back).contains(x) <==> front.contains(x) || back.contains(x),
{
    let s = front + back;
    if s.contains(x) {
        let i = choose|i: int| 0 <= i < s.len() && s[i] == x;
        if i < front.len() {
            assert(front[i] == x);
        } else {
            assert(back[i - front.len()] == x);
        }
    }
    if front.contains(x) {
        let i = choose|i: int| 0 <= i < front.len() && front[i] == x;
        assert(s[i] == x);
    }
    if back.contains(x) {
        let j = choose|j: int| 0 <= j < back.len() && back[j] == x;
        assert(s[front.len() + j] == x);
    }
}

/// A sequence extended by `x` holds what it held before, and `x`.
pub proof fn lemma_push_contains(s: Seq<NodeId>, x: NodeId, y: NodeId)
    ensures
        s.push(x).contains(y) <==> s.contains(y) || y == x,
{
    let t = s.push(x);
    if t.contains(y) {
        let i = choose|i: int| 0 <= i < t.len() && t[i] == y;
        if i < s.len() {
            assert(s[i] == y);
        }
    }
    if s.contains(y) {
        let i = choose|i: int| 0 <= i < s.len() && s[i] == y;
        assert(t[i] == y);
    }
    if y == x {
        assert(t[s.len() as int] == y);
    }
}

/// The front part of a sequence, one element longer, holds that element
/// besides what it held.
pub proof fn lemma_take_next(s: Seq<NodeId>, i: int)
    requires
        0 <= i < s.len(),
    ensures
        s.take(i + 1) == s.take(i).push(s[i]),
        s.take(i + 1).to_set() == s.take(i).to_set().insert(s[i]),
        forall|y: NodeId| s.take(i + 1).contains(y) <==> s.take(i).contains(y) || y == s[i],
{
    assert(s.take(i + 1) =~= s.take(i).push(s[i]));
    assert forall|y: NodeId| s.take(i + 1).contains(y) <==> s.take(i).contains(y) || y == s[i] by {
        lemma_push_contains(s.take(i), s[i], y);
    }
    assert forall|y: NodeId|
        s.take(i + 1).to_set().contains(y) == s.take(i).to_set().insert(s[i]).contains(y) by {
        lemma_push_contains(s.take(i), s[i], y);
    }
    assert(s.take(i + 1).to_set() =~= s.take(i).to_set().insert(s[i]));
}

/// Filtering with two tests that agree on every element of a sequence gives
/// the same result.
pub proof fn lemma_filter_agree(s: Seq<NodeId>, p: spec_fn(NodeId) -> bool, q: spec_fn(NodeId) -> bool)
    requires
        forall|i: int| 0 <= i < s.len() ==> p(#[trigger] s[i]) == q(s[i]),
    ensures
        s.filter(p) == s.filter(q),
    decreases s.len(),
{
    reveal(Seq::filter);
    if s.len() > 0 {
        assert forall|i: int| 0 <= i < s.drop_last().len() implies p(#[trigger] s.drop_last()[i])
            == q(s.drop_last()[i]) by {
            assert(s.drop_last()[i] == s[i]);
        }
        lemma_filter_agree(s.drop_last(), p, q);
        assert(p(s[s.len() - 1]) == q(s[s.len() - 1]));
    }
}

/// Extends the filtered front part of a sequence by one element, under a
/// test that agrees with the earlier one on the front part.
pub proof fn lemma_filter_step(
    s: Seq<NodeId>,
    i: int,
    p: spec_fn(NodeId) -> bool,
    q: spec_fn(NodeId) -> bool,
)
    requires
        0 <= i < s.len(),
        forall|j: int| 0 <= j < i ==> p(#[trigger] s[j]) == q(s[j]),
    ensures
        s.take(i + 1).filter(q) == if q(s[i]) {
            s.take(i).filter(p).push(s[i])
        } else {
            s.take(i).filter(p)
        },
{
    assert forall|j: int| 0 <= j < s.take(i).len() implies p(#[trigger] s.take(i)[j]) == q(
        s.take(i)[j],
    ) by {
        assert(s.take(i)[j] == s[j]);
    }
    lemma_filter_agree(s.take(i), p, q);
    assert(s.take(i + 1) =~= s.take(i).push(s[i]));
    s.take(i).lemma_filter_push(s[i], q);
}

} // verus!
