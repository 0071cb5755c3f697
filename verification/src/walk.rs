//! Walks through the graph whose edges are the legal slides.

use vstd::prelude::*;
use crate::state::State;

verus! {

/// The state after place `i` of `p` is one slide away from the state at
/// place `i`.
pub open spec fn step_at(p: Seq<State>, i: int) -> bool {
    p[i].successors().contains(p[i + 1])
}

/// `p` is a walk: it is not empty, and each of its states is followed by one
/// of that state's successors.
pub open spec fn is_path(p: Seq<State>) -> bool {
    p.len() > 0 && forall|i: int| 0 <= i < p.len() - 1 ==> #[trigger] step_at(p, i)
}

/// Some walk leads from `root` to `s`.
pub open spec fn reachable(root: State, s: State) -> bool {
    exists|p: Seq<State>| #[trigger] is_path(p) && p[0] == root && p.last() == s
}

/// A walk without its last state is a walk, if anything is left of it.
pub proof fn lemma_path_drop_last(p: Seq<State>)
    requires
        is_path(p),
        p.len() > 1,
    ensures
        is_path(p.drop_last()),
        p.drop_last()[0] == p[0],
        p.drop_last().last().successors().contains(p.last()),
{
    let q = p.drop_last();
    assert forall|i: int| 0 <= i < q.len() - 1 implies #[trigger] step_at(q, i) by {
        assert(step_at(p, i));
    }
    assert(step_at(p, p.len() - 2));
}

/// The first `n` states of a walk are a walk.
pub proof fn lemma_path_prefix(p: Seq<State>, n: int)
    requires
        is_path(p),
        0 < n <= p.len(),
    ensures
        is_path(p.subrange(0, n)),
        p.subrange(0, n)[0] == p[0],
        p.subrange(0, n).last() == p[n - 1],
{
    let q = p.subrange(0, n);
    assert forall|i: int| 0 <= i < q.len() - 1 implies #[trigger] step_at(q, i) by {
        assert(step_at(p, i));
    }
}

/// A walk followed by a successor of its last state is a walk.
pub proof fn lemma_path_push(p: Seq<State>, s: State)
    requires
        is_path(p),
        p.last().successors().contains(s),
    ensures
        is_path(p.push(s)),
        p.push(s)[0] == p[0],
        p.push(s).last() == s,
{
    let q = p.push(s);
    assert forall|i: int| 0 <= i < q.len() - 1 implies #[trigger] step_at(q, i) by {
        if i < p.len() - 1 {
            assert(step_at(p, i));
        }
    }
}

} // verus!
