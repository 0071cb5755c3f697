//! The visited table of a breadth-first search, as a mathematical object:
//! the states in the order of their discovery, and for each the place of the
//! state from which it was discovered.

use vstd::prelude::*;
use crate::state::State;
use crate::walk::{is_path, reachable, lemma_path_drop_last, lemma_path_push};

verus! {

/// The parent of the root: no place of the table.
pub const NO_PARENT: usize = usize::MAX;

/// The table is a tree rooted at place 0: no state stands in it twice, the
/// root has no parent, and every other state is a successor of its parent,
/// which stands before it.
pub open spec fn linked(t: Seq<State>, par: Seq<usize>) -> bool {
    &&& t.len() == par.len()
    &&& t.len() > 0
    &&& par[0] == NO_PARENT
    &&& t.no_duplicates()
    &&& forall|i: int|
        0 < i < t.len() ==> (#[trigger] par[i]) < i && t[par[i] as int].successors().contains(t[i])
}

/// How many slides lead from the root to place `i` along the parents.
pub open spec fn depth(par: Seq<usize>, i: int) -> nat
    decreases i,
{
    if 0 < i < par.len() && par[i] < i {
        depth(par, par[i] as int) + 1
    } else {
        0
    }
}

/// The states from the root to place `i` along the parents, root first.
pub open spec fn path_to(t: Seq<State>, par: Seq<usize>, i: int) -> Seq<State>
    decreases i,
{
    if 0 < i < par.len() && par[i] < i {
        path_to(t, par, par[i] as int).push(t[i])
    } else {
        seq![t[i]]
    }
}

/// Parents never decrease along the table: states are expanded in the
/// order of their discovery.
pub open spec fn ordered(par: Seq<usize>) -> bool {
    forall|i: int, j: int| 0 < i <= j < par.len() ==> par[i] <= par[j]
}

/// No state has been discovered from a place after `h`.
pub open spec fn bounded(par: Seq<usize>, h: int) -> bool {
    forall|i: int| 0 < i < par.len() ==> #[trigger] par[i] <= h
}

/// `s` stands in the table, as the root or discovered from a place up to `q`.
pub open spec fn known(t: Seq<State>, par: Seq<usize>, s: State, q: int) -> bool {
    exists|j: int| 0 <= j < t.len() && #[trigger] t[j] == s && (j > 0 ==> par[j] <= q)
}

/// The states before place `h` are expanded: each of their successors
/// stands in the table, discovered no later than from that state.
pub open spec fn closed_below(t: Seq<State>, par: Seq<usize>, h: int) -> bool {
    forall|q: int, s: State|
        0 <= q < h && #[trigger] t[q].successors().contains(s) ==> known(t, par, s, q)
}

/// Place `j` was discovered in its turn: its state is a successor of its
/// parent, and the successors that the parent lists before it stood in the
/// table by then.
pub open spec fn in_turn_at(t: Seq<State>, par: Seq<usize>, j: int) -> bool {
    let turn = t[par[j] as int].successors();
    exists|y: int|
        0 <= y < turn.len() && #[trigger] turn[y] == t[j] && forall|z: int|
            0 <= z < y ==> t.subrange(0, j).contains(#[trigger] turn[z])
}

/// Every state but the root was discovered in its turn.
pub open spec fn in_turn(t: Seq<State>, par: Seq<usize>) -> bool {
    forall|j: int| 0 < j < t.len() ==> #[trigger] in_turn_at(t, par, j)
}

/// The place that was being expanded when the last state was discovered.
pub open spec fn head(par: Seq<usize>) -> int {
    if par.len() > 1 {
        par.last() as int
    } else {
        0
    }
}

/// The table is what a breadth-first search holds while it expands place
/// `h`: a tree, filled in the order in which the states before `h`, and then
/// `h` itself, list their successors, each state recorded where it was
/// first met.
pub open spec fn breadth_first(t: Seq<State>, par: Seq<usize>, h: int) -> bool {
    &&& linked(t, par)
    &&& ordered(par)
    &&& bounded(par, h)
    &&& closed_below(t, par, h)
    &&& in_turn(t, par)
}

/// The table of a search that stopped on discovering a goal: the goal is the
/// last state, and the only one.
pub open spec fn stopped_at_goal(t: Seq<State>, par: Seq<usize>) -> bool {
    &&& breadth_first(t, par, head(par))
    &&& t.last().is_goal()
    &&& forall|i: int| 0 <= i < t.len() - 1 ==> !(#[trigger] t[i]).is_goal()
}

/// The table of a search that expanded every state it discovered and met
/// no goal.
pub open spec fn ran_out(t: Seq<State>, par: Seq<usize>) -> bool {
    &&& breadth_first(t, par, t.len() as int)
    &&& forall|i: int| 0 <= i < t.len() ==> !(#[trigger] t[i]).is_goal()
}

/// The table of a search that has ended, one way or the other.
pub open spec fn ended(t: Seq<State>, par: Seq<usize>) -> bool {
    stopped_at_goal(t, par) || ran_out(t, par)
}

/// In a table without duplicates a state is found at its own place.
pub proof fn lemma_index_of(t: Seq<State>, i: int)
    requires
        t.no_duplicates(),
        0 <= i < t.len(),
    ensures
        t.index_of(t[i]) == i,
        t.contains(t[i]),
{
}

/// The states along the parents of place `i` form a walk from the root to
/// that place, as long as its depth says.
pub proof fn lemma_path_to(t: Seq<State>, par: Seq<usize>, i: int)
    requires
        linked(t, par),
        0 <= i < t.len(),
    ensures
        is_path(path_to(t, par, i)),
        path_to(t, par, i)[0] == t[0],
        path_to(t, par, i).last() == t[i],
        path_to(t, par, i).len() == depth(par, i) + 1,
    decreases i,
{
    if i > 0 {
        lemma_path_to(t, par, par[i] as int);
        lemma_path_push(path_to(t, par, par[i] as int), t[i]);
    } else {
        assert(is_path(seq![t[0]]));
    }
}

/// The way to place `i` passes through places up to `i` only, and through
/// none of them twice.
pub proof fn lemma_path_to_distinct(t: Seq<State>, par: Seq<usize>, i: int)
    requires
        linked(t, par),
        0 <= i < t.len(),
    ensures
        path_to(t, par, i).no_duplicates(),
        forall|k: int|
            0 <= k < path_to(t, par, i).len() ==> exists|j: int|
                0 <= j <= i && t[j] == #[trigger] path_to(t, par, i)[k],
    decreases i,
{
    let p = path_to(t, par, i);
    if i > 0 {
        let q = par[i] as int;
        let before = path_to(t, par, q);
        lemma_path_to_distinct(t, par, q);
        assert forall|k: int| 0 <= k < p.len() implies exists|j: int|
            0 <= j <= i && t[j] == #[trigger] p[k] by {
            if k < before.len() {
                let j = choose|j: int| 0 <= j <= q && t[j] == before[k];
                assert(t[j] == p[k]);
            } else {
                assert(t[i] == p[k]);
            }
        }
        assert forall|k: int, l: int| 0 <= k < p.len() && 0 <= l < p.len() && k != l implies p[k]
            != p[l] by {
            if k < before.len() && l < before.len() {
                assert(before[k] != before[l]);
            } else if k < before.len() {
                let j = choose|j: int| 0 <= j <= q && t[j] == before[k];
            } else {
                let j = choose|j: int| 0 <= j <= q && t[j] == before[l];
            }
        }
    } else {
        assert(t[0] == p[0]);
    }
}

/// In an ordered table the depth never decreases.
pub proof fn lemma_depth_monotone(t: Seq<State>, par: Seq<usize>, i: int, j: int)
    requires
        linked(t, par),
        ordered(par),
        0 <= i <= j < par.len(),
    ensures
        depth(par, i) <= depth(par, j),
    decreases j,
{
    if 0 < i && i < j {
        lemma_depth_monotone(t, par, par[i] as int, par[j] as int);
    }
}

/// While place `h` is being expanded, no state of the table lies more than
/// one slide deeper than `h`.
pub proof fn lemma_depth_bound(t: Seq<State>, par: Seq<usize>, h: int, j: int)
    requires
        linked(t, par),
        ordered(par),
        bounded(par, h),
        0 <= h < t.len(),
        0 <= j < t.len(),
    ensures
        depth(par, j) <= depth(par, h) + 1,
{
    if j > 0 {
        assert(par[j] <= h);
        lemma_depth_monotone(t, par, par[j] as int, h);
    }
}

/// The heart of breadth-first search. While place `h` is being expanded, the
/// end of any walk from the root either stands in the table, no deeper than
/// the walk is long, or lies more than `depth(h)` slides from the root.
pub proof fn lemma_frontier(t: Seq<State>, par: Seq<usize>, h: int, p: Seq<State>)
    requires
        linked(t, par),
        ordered(par),
        bounded(par, h),
        closed_below(t, par, h),
        0 <= h < t.len(),
        is_path(p),
        p[0] == t[0],
    ensures
        t.contains(p.last()) ==> depth(par, t.index_of(p.last())) <= p.len() - 1,
        !t.contains(p.last()) ==> depth(par, h) + 1 <= p.len() - 1,
    decreases p.len(),
{
    let last = p.last();
    if p.len() == 1 {
        lemma_index_of(t, 0);
    } else {
        let q = p.drop_last();
        lemma_path_drop_last(p);
        lemma_frontier(t, par, h, q);
        let prev = q.last();
        if t.contains(last) {
            lemma_depth_bound(t, par, h, t.index_of(last));
        }
        if t.contains(prev) {
            let i = t.index_of(prev);
            if i < h {
                assert(t[i].successors().contains(last));
                assert(known(t, par, last, i));
                let j = choose|j: int|
                    0 <= j < t.len() && #[trigger] t[j] == last && (j > 0 ==> par[j] <= i);
                lemma_index_of(t, j);
                if j > 0 {
                    lemma_depth_monotone(t, par, par[j] as int, i);
                }
            } else {
                lemma_depth_monotone(t, par, h, i);
            }
        }
    }
}

/// Once every state of the table is expanded, the table holds every state
/// that a walk from the root reaches.
pub proof fn lemma_closed(t: Seq<State>, par: Seq<usize>, p: Seq<State>)
    requires
        linked(t, par),
        closed_below(t, par, t.len() as int),
        is_path(p),
        p[0] == t[0],
    ensures
        t.contains(p.last()),
    decreases p.len(),
{
    if p.len() > 1 {
        let q = p.drop_last();
        lemma_path_drop_last(p);
        lemma_closed(t, par, q);
        let i = t.index_of(q.last());
        assert(t[i].successors().contains(p.last()));
        assert(known(t, par, p.last(), i));
    }
}

/// The goal on which a search stopped is a nearest one: no walk from the
/// root to any goal is shorter than the recorded way to it.
pub proof fn lemma_goal_is_nearest(t: Seq<State>, par: Seq<usize>, p: Seq<State>)
    requires
        stopped_at_goal(t, par),
        is_path(p),
        p[0] == t[0],
        p.last().is_goal(),
    ensures
        path_to(t, par, t.len() - 1).len() <= p.len(),
{
    let n = t.len() - 1;
    if n > 0 {
        let h = head(par);
        lemma_frontier(t, par, h, p);
        lemma_path_to(t, par, n);
        assert(depth(par, n) == depth(par, h) + 1);
        if t.contains(p.last()) {
            let i = t.index_of(p.last());
            assert(i == n);
        }
    }
}

/// The table of a search that ran out holds exactly the states that can be
/// reached from the root; so none of those is a goal.
pub proof fn lemma_ran_out(t: Seq<State>, par: Seq<usize>, s: State)
    requires
        ran_out(t, par),
    ensures
        t.contains(s) <==> reachable(t[0], s),
        reachable(t[0], s) ==> !s.is_goal(),
{
    if t.contains(s) {
        let i = t.index_of(s);
        lemma_path_to(t, par, i);
        assert(is_path(path_to(t, par, i)));
    }
    if reachable(t[0], s) {
        let p = choose|p: Seq<State>| #[trigger] is_path(p) && p[0] == t[0] && p.last() == s;
        lemma_closed(t, par, p);
        let i = t.index_of(s);
        assert(!t[i].is_goal());
    }
}

/// If two breadth-first tables agree before place `i`, the state at place
/// `i` of the first was not discovered from an earlier place than that of the
/// second.
proof fn lemma_parent_not_earlier(
    t1: Seq<State>,
    par1: Seq<usize>,
    h1: int,
    t2: Seq<State>,
    par2: Seq<usize>,
    h2: int,
    i: int,
)
    requires
        breadth_first(t1, par1, h1),
        breadth_first(t2, par2, h2),
        0 < i < t1.len(),
        i < t2.len(),
        forall|k: int| 0 <= k < i ==> t1[k] == t2[k],
    ensures
        par1[i] >= par2[i],
{
    let q1 = par1[i] as int;
    let q2 = par2[i] as int;
    if q1 < q2 {
        let s = t1[i];
        assert(q2 <= h2);
        assert(t2[q1].successors().contains(s));
        assert(known(t2, par2, s, q1));
        let j = choose|j: int| 0 <= j < t2.len() && #[trigger] t2[j] == s && (j > 0 ==> par2[j] <= q1);
        if j < i {
            assert(t1[j] == t1[i]);
        } else {
            assert(par2[i] <= par2[j]);
        }
    }
}

/// If two breadth-first tables agree before place `i` and on the parent of
/// place `i`, the state at place `i` of the first is not listed by that
/// parent before the state at place `i` of the second.
proof fn lemma_turn_not_earlier(
    t1: Seq<State>,
    par1: Seq<usize>,
    h1: int,
    t2: Seq<State>,
    par2: Seq<usize>,
    h2: int,
    i: int,
)
    requires
        breadth_first(t1, par1, h1),
        breadth_first(t2, par2, h2),
        0 < i < t1.len(),
        i < t2.len(),
        forall|k: int| 0 <= k < i ==> t1[k] == t2[k],
        par1[i] == par2[i],
    ensures
        forall|y: int|
            0 <= y < t1[par1[i] as int].successors().len() && #[trigger] t1[par1[i] as int].successors()[y]
                == t1[i] ==> exists|x: int|
                0 <= x <= y && #[trigger] t1[par1[i] as int].successors()[x] == t2[i],
{
    let turn = t1[par1[i] as int].successors();
    assert(in_turn_at(t2, par2, i));
    assert(par2[i] < i);
    let x = choose|x: int|
        0 <= x < turn.len() && #[trigger] turn[x] == t2[i] && forall|z: int|
            0 <= z < x ==> t2.subrange(0, i).contains(#[trigger] turn[z]);
    assert forall|y: int| 0 <= y < turn.len() && #[trigger] turn[y] == t1[i] implies exists|x: int|
        0 <= x <= y && #[trigger] turn[x] == t2[i] by {
        if y < x {
            assert(t2.subrange(0, i).contains(turn[y]));
            let k = choose|k: int| 0 <= k < i && t2.subrange(0, i)[k] == turn[y];
            assert(t1[k] == t1[i]);
        }
    }
}

/// Two breadth-first tables with the same root hold the same states with
/// the same parents, as far as both go.
pub proof fn lemma_same_order(
    t1: Seq<State>,
    par1: Seq<usize>,
    h1: int,
    t2: Seq<State>,
    par2: Seq<usize>,
    h2: int,
    i: int,
)
    requires
        breadth_first(t1, par1, h1),
        breadth_first(t2, par2, h2),
        t1[0] == t2[0],
        0 <= i < t1.len(),
        i < t2.len(),
    ensures
        t1[i] == t2[i],
        par1[i] == par2[i],
    decreases i,
{
    if i > 0 {
        assert forall|k: int| 0 <= k < i implies t1[k] == t2[k] by {
            lemma_same_order(t1, par1, h1, t2, par2, h2, k);
        }
        lemma_parent_not_earlier(t1, par1, h1, t2, par2, h2, i);
        lemma_parent_not_earlier(t2, par2, h2, t1, par1, h1, i);
        lemma_turn_not_earlier(t1, par1, h1, t2, par2, h2, i);
        lemma_turn_not_earlier(t2, par2, h2, t1, par1, h1, i);
        let turn = t1[par1[i] as int].successors();
        assert(in_turn_at(t1, par1, i));
        assert(in_turn_at(t2, par2, i));
        let y1 = choose|y: int|
            0 <= y < turn.len() && #[trigger] turn[y] == t1[i] && forall|z: int|
                0 <= z < y ==> t1.subrange(0, i).contains(#[trigger] turn[z]);
        let x2 = choose|x: int| 0 <= x <= y1 && #[trigger] turn[x] == t2[i];
        if x2 < y1 {
            assert(t1.subrange(0, i).contains(turn[x2]));
            let k = choose|k: int| 0 <= k < i && t1.subrange(0, i)[k] == turn[x2];
            assert(t2[k] == t2[i]);
        }
    }
}

/// A search that has ended cannot have gone on: no table of an ended search
/// is longer than another with the same root.
proof fn lemma_not_longer(t1: Seq<State>, par1: Seq<usize>, t2: Seq<State>, par2: Seq<usize>)
    requires
        ended(t1, par1),
        ended(t2, par2),
        t1[0] == t2[0],
    ensures
        t1.len() >= t2.len(),
{
    let h1 = if stopped_at_goal(t1, par1) {
        head(par1)
    } else {
        t1.len() as int
    };
    let h2 = if stopped_at_goal(t2, par2) {
        head(par2)
    } else {
        t2.len() as int
    };
    let n = t1.len() as int;
    if n < t2.len() {
        lemma_same_order(t1, par1, h1, t2, par2, h2, n - 1);
        if stopped_at_goal(t1, par1) {
            assert(!t2[n - 1].is_goal());
        } else {
            let q = par2[n] as int;
            assert(q < n);
            lemma_same_order(t1, par1, h1, t2, par2, h2, q);
            assert(t1[q].successors().contains(t2[n]));
            assert(known(t1, par1, t2[n], q));
            let j = choose|j: int| 0 <= j < t1.len() && #[trigger] t1[j] == t2[n] && (j > 0 ==> par1[j] <= q);
            lemma_same_order(t1, par1, h1, t2, par2, h2, j);
        }
    }
}

/// The order of discovery is determined: two searches from the same root
/// that have ended hold the same table.
pub proof fn lemma_search_unique(t1: Seq<State>, par1: Seq<usize>, t2: Seq<State>, par2: Seq<usize>)
    requires
        ended(t1, par1),
        ended(t2, par2),
        t1[0] == t2[0],
    ensures
        t1 == t2,
        par1 == par2,
{
    lemma_not_longer(t1, par1, t2, par2);
    lemma_not_longer(t2, par2, t1, par1);
    let h1 = if stopped_at_goal(t1, par1) {
        head(par1)
    } else {
        t1.len() as int
    };
    let h2 = if stopped_at_goal(t2, par2) {
        head(par2)
    } else {
        t2.len() as int
    };
    assert forall|i: int| 0 <= i < t1.len() implies t1[i] == t2[i] && par1[i] == par2[i] by {
        lemma_same_order(t1, par1, h1, t2, par2, h2, i);
    }
    assert(t1 =~= t2);
    assert(par1 =~= par2);
}

} // verus!
