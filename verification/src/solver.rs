//! The search engine: a breadth-first traversal that records every state it
//! discovers, and the reconstruction of the way to a recorded state.

use vstd::prelude::*;
use std::collections::VecDeque;
use std::hash::BuildHasherDefault;
use fxhash::FxHasher;
use fxhash::FxHashMap;
use crate::state::{State, lemma_key_injective};
use crate::walk::{is_path, reachable, step_at, lemma_path_prefix};
use crate::table::{
    NO_PARENT, linked, path_to, known, breadth_first, stopped_at_goal, ran_out, in_turn_at,
    lemma_index_of, lemma_path_to, lemma_path_to_distinct, lemma_goal_is_nearest, lemma_ran_out,
    lemma_search_unique,
};
use crate::rules::{valid, lemma_path_valid, lemma_reversible};

verus! {

/// `fxhash::FxHasher`, the hasher of the visited table.
#[verifier::external_type_specification]
#[verifier::external_body]
pub struct ExFxHasher(FxHasher);

/// `std::hash::BuildHasherDefault`, which makes each hasher of a map with
/// `Default::default`.
#[verifier::external_type_specification]
#[verifier::external_body]
#[verifier::reject_recursive_types(H)]
pub struct ExBuildHasherDefault<H>(BuildHasherDefault<H>);

/// `HashMap::contains_key` on an `fxhash::FxHashMap` keyed by integers: whether
/// the map holds an entry for `k`.
#[verifier::external_body]
fn visited(memo: &FxHashMap<u128, (usize, usize)>, k: u128) -> (b: bool)
    ensures
        b == memo@.contains_key(k),
{
    memo.contains_key(&k)
}

/// `HashMap::insert` on an `fxhash::FxHashMap` keyed by integers: afterwards
/// the map holds `v` for `k`, and for every other key what it held before.
#[verifier::external_body]
fn record(memo: &mut FxHashMap<u128, (usize, usize)>, k: u128, v: (usize, usize))
    ensures
        final(memo)@ == old(memo)@.insert(k, v),
{
    memo.insert(k, v);
}

/// `HashMap::get` on an `fxhash::FxHashMap` keyed by integers: the entry for
/// `k`, if the map holds one.
#[verifier::external_body]
fn lookup(memo: &FxHashMap<u128, (usize, usize)>, k: u128) -> (r: Option<(usize, usize)>)
    ensures
        r == (if memo@.contains_key(k) {
            Some(memo@[k])
        } else {
            None
        }),
{
    memo.get(&k).copied()
}

/// Why a call of the engine failed.
#[derive(Clone, Copy, PartialEq, Eq, Debug)]
pub enum SolverError {
    /// Every reachable state was visited, and none of them is a goal.
    NoSolution,
    /// The state was never discovered by this engine.
    MissingRecord,
}

/// The map agrees with the table: it holds, under the key of each state, the
/// place of the state and the place of its parent, and nothing else.
spec fn indexed(t: Seq<State>, par: Seq<usize>, memo: Map<u128, (usize, usize)>) -> bool {
    &&& t.len() == par.len()
    &&& forall|i: int|
        0 <= i < t.len() ==> memo.contains_key(#[trigger] t[i].spec_key()) && memo[t[i].spec_key()]
            == (i as usize, par[i])
    &&& forall|k: u128| #[trigger]
        memo.contains_key(k) ==> memo[k].0 < t.len() && t[memo[k].0 as int].spec_key() == k
}

/// The parents that the map records for the states of the table.
spec fn parents_of(t: Seq<State>, memo: Map<u128, (usize, usize)>) -> Seq<usize> {
    Seq::new(t.len(), |i: int| memo[t[i].spec_key()].1)
}

/// An indexed table records exactly the parents it was built with.
proof fn lemma_parents_of(t: Seq<State>, par: Seq<usize>, memo: Map<u128, (usize, usize)>)
    requires
        indexed(t, par, memo),
    ensures
        parents_of(t, memo) == par,
{
    assert(parents_of(t, memo) =~= par);
}

/// A state whose key the map holds stands in the table, at the place that
/// the map gives.
proof fn lemma_recorded(
    t: Seq<State>,
    par: Seq<usize>,
    memo: Map<u128, (usize, usize)>,
    s: State,
)
    requires
        indexed(t, par, memo),
    ensures
        memo.contains_key(s.spec_key()) <==> t.contains(s),
        memo.contains_key(s.spec_key()) ==> 0 <= memo[s.spec_key()].0 < t.len() && t[memo[s.spec_key(
        )].0 as int] == s,
{
    if memo.contains_key(s.spec_key()) {
        let j = memo[s.spec_key()].0 as int;
        lemma_key_injective(t[j], s);
    }
    if t.contains(s) {
        let i = choose|i: int| 0 <= i < t.len() && t[i] == s;
        assert(memo.contains_key(t[i].spec_key()));
    }
}

/// Recording a new successor of place `h` at the end of the table keeps the
/// table a tree in breadth-first order, and keeps what was known.
proof fn lemma_discover(
    t: Seq<State>,
    par: Seq<usize>,
    memo: Map<u128, (usize, usize)>,
    h: int,
    s: State,
    y: int,
)
    requires
        breadth_first(t, par, h),
        indexed(t, par, memo),
        0 <= h < t.len() < usize::MAX,
        0 <= y < t[h].successors().len(),
        t[h].successors()[y] == s,
        forall|z: int| 0 <= z < y ==> known(t, par, #[trigger] t[h].successors()[z], h),
        !memo.contains_key(s.spec_key()),
    ensures
        breadth_first(t.push(s), par.push(h as usize), h),
        linked(t.push(s), par.push(h as usize)),
        indexed(
            t.push(s),
            par.push(h as usize),
            memo.insert(s.spec_key(), (t.len() as usize, h as usize)),
        ),
        known(t.push(s), par.push(h as usize), s, h),
        forall|x: State| #[trigger] known(t, par, x, h) ==> known(t.push(s), par.push(h as usize), x, h),
{
    let t2 = t.push(s);
    let par2 = par.push(h as usize);
    let n = t.len() as int;
    let memo2 = memo.insert(s.spec_key(), (n as usize, h as usize));
    lemma_recorded(t, par, memo, s);
    assert(t[h].successors().contains(s));
    assert(t2.no_duplicates());
    assert forall|i: int| 0 < i < t2.len() implies (#[trigger] par2[i]) < i && t2[par2[i] as int].successors().contains(
        t2[i],
    ) by {
        if i < n {
            assert(par[i] < i);
        }
    }
    assert forall|i: int| 0 <= i < t2.len() implies memo2.contains_key(
        #[trigger] t2[i].spec_key(),
    ) && memo2[t2[i].spec_key()] == (i as usize, par2[i]) by {
        if i < n {
            assert(memo.contains_key(t[i].spec_key()));
        }
    }
    assert forall|k: u128| #[trigger] memo2.contains_key(k) implies memo2[k].0 < t2.len() && t2[memo2[k].0 as int].spec_key()
        == k by {
        if k != s.spec_key() {
            assert(memo.contains_key(k));
        }
    }
    assert forall|i: int, j: int| 0 < i <= j < par2.len() implies par2[i] <= par2[j] by {
        if j < n {
            assert(par[i] <= par[j]);
        } else if i < n {
            assert(par[i] <= h);
        }
    }
    assert forall|i: int| 0 < i < par2.len() implies #[trigger] par2[i] <= h by {
        if i < n {
            assert(par[i] <= h);
        }
    }
    assert forall|x: State, q: int| #[trigger] known(t, par, x, q) implies known(t2, par2, x, q) by {
        let j = choose|j: int| 0 <= j < t.len() && #[trigger] t[j] == x && (j > 0 ==> par[j] <= q);
        assert(t2[j] == x);
    }
    assert forall|q: int, x: State| 0 <= q < h && #[trigger] t2[q].successors().contains(x) implies known(
        t2,
        par2,
        x,
        q,
    ) by {
        assert(t[q].successors().contains(x));
        assert(known(t, par, x, q));
    }
    assert(t2[n] == s);
    assert forall|j: int| 0 < j < t2.len() implies #[trigger] in_turn_at(t2, par2, j) by {
        let turn = t2[par2[j] as int].successors();
        if j < n {
            assert(in_turn_at(t, par, j));
            assert(par[j] < j);
            let x = choose|x: int|
                0 <= x < turn.len() && #[trigger] turn[x] == t[j] && forall|z: int|
                    0 <= z < x ==> t.subrange(0, j).contains(#[trigger] turn[z]);
            assert(t2.subrange(0, j) =~= t.subrange(0, j));
            assert(turn[x] == t2[j]);
        } else {
            assert(t2.subrange(0, j) =~= t);
            assert forall|z: int| 0 <= z < y implies t.contains(#[trigger] turn[z]) by {
                assert(known(t, par, t[h].successors()[z], h));
            }
            assert(turn[y] == t2[j]);
        }
    }
}

/// The search engine.
pub struct Solver {
    /// The discovered states, in the order of their discovery.
    state: Vec<State>,
    /// For the key of each discovered state: (its place, the place of its parent).
    memo: FxHashMap<u128, (usize, usize)>,
}

impl Solver {
    /// The table is a tree, and the map is its index.
    #[verifier::type_invariant]
    pub closed spec fn inv(&self) -> bool {
        &&& linked(self.state@, parents_of(self.state@, self.memo@))
        &&& indexed(self.state@, parents_of(self.state@, self.memo@), self.memo@)
    }

    /// The discovered states, in the order of their discovery.
    pub closed spec fn table(&self) -> Seq<State> {
        self.state@
    }

    /// For each place of the table, the place of the state from which that
    /// state was discovered; for the root, `NO_PARENT`.
    pub closed spec fn parents(&self) -> Seq<usize> {
        parents_of(self.state@, self.memo@)
    }

    /// The state from which the search starts.
    pub open spec fn root(&self) -> State {
        self.table()[0]
    }

    /// The recorded way from the root to `s`.
    pub open spec fn route(&self, s: State) -> Seq<State> {
        path_to(self.table(), self.parents(), self.table().index_of(s))
    }

    /// Nothing but the root is discovered.
    pub open spec fn idle(&self) -> bool {
        &&& self.table().len() == 1
        &&& self.parents() == seq![NO_PARENT]
    }

    /// The search has ended at `g`: the table is that of a breadth-first
    /// search which stopped on discovering `g`. So `g` is a goal, the last
    /// state discovered and the only goal in the table, and no walk from the
    /// root to any goal is shorter than the recorded way to `g`.
    pub open spec fn found(&self, g: State) -> bool {
        &&& stopped_at_goal(self.table(), self.parents())
        &&& self.table().last() == g
        &&& forall|p: Seq<State>| #[trigger]
            is_path(p) && p[0] == self.root() && p.last().is_goal() ==> self.route(g).len()
                <= p.len()
    }

    /// The search has ended without a goal: the table is that of a
    /// breadth-first search which expanded every state it discovered. So it
    /// holds exactly the states that can be reached from the root, and none
    /// of them is a goal.
    pub open spec fn exhausted(&self) -> bool {
        &&& ran_out(self.table(), self.parents())
        &&& forall|s: State| self.table().contains(s) <==> reachable(self.root(), s)
        &&& forall|s: State| reachable(self.root(), s) ==> !s.is_goal()
    }

    /// An engine for the puzzle's own starting layout.
    pub fn new() -> (solver: Self)
        ensures
            solver.inv(),
            solver.idle(),
            solver.root() == State::initial(),
    {
        Self::with_initial(State::get_initial_state())
    }

    /// An engine that starts from `root`.
    pub fn with_initial(root: State) -> (solver: Self)
        ensures
            solver.inv(),
            solver.idle(),
            solver.root() == root,
    {
        let mut state: Vec<State> = Vec::new();
        let mut memo: FxHashMap<u128, (usize, usize)> = FxHashMap::default();
        state.push(root);
        record(&mut memo, root.key(), (0, NO_PARENT));
        proof {
            assert(parents_of(state@, memo@) =~= seq![NO_PARENT]);
        }
        Solver { state, memo }
    }

    /// The discovered states, in the order of their discovery: the place of
    /// a state in this list is its id.
    pub fn states(&self) -> (t: &Vec<State>)
        ensures
            t@ == self.table(),
    {
        &self.state
    }

    /// The record of `state`: its id and the id of its parent, which is
    /// `NO_PARENT` for the root. `None` if the state was never discovered.
    pub fn record_of(&self, state: &State) -> (r: Option<(usize, usize)>)
        ensures
            match r {
                Some((id, parent)) => id < self.table().len() && self.table()[id as int] == *state
                    && self.parents()[id as int] == parent,
                None => !self.table().contains(*state),
            },
    {
        proof {
            use_type_invariant(self);
            lemma_recorded(self.state@, self.parents(), self.memo@, *state);
        }
        lookup(&self.memo, state.key())
    }

    /// Searches breadth-first from the root for the nearest goal. The table
    /// is built anew: afterwards it holds the states in the order of their
    /// discovery, up to the goal or, if there is none, all that can be
    /// reached.
    pub fn solve(&mut self) -> (r: Result<State, SolverError>)
        ensures
            final(self).inv(),
            final(self).root() == old(self).root(),
            r is Ok <==> exists|s: State| reachable(old(self).root(), s) && s.is_goal(),
            match r {
                Ok(g) => final(self).found(g),
                Err(e) => e == SolverError::NoSolution && final(self).exhausted(),
            },
    {
        proof {
            use_type_invariant(&*self);
        }
        let root = self.state[0];
        let mut state: Vec<State> = Vec::new();
        let mut memo: FxHashMap<u128, (usize, usize)> = FxHashMap::default();
        state.push(root);
        record(&mut memo, root.key(), (0, NO_PARENT));
        let ghost mut par: Seq<usize> = seq![NO_PARENT];
        if root.is_goal() {
            proof {
                lemma_parents_of(state@, par, memo@);
                lemma_index_of(state@, 0);
                lemma_path_to(state@, par, 0);
                assert(is_path(path_to(state@, par, 0)));
                assert(reachable(root, root) && root.is_goal());
            }
            *self = Solver { state, memo };
            return Ok(root);
        }
        let mut queue: VecDeque<(State, usize)> = VecDeque::new();
        queue.push_back((root, 0));
        let ghost mut h: int = 0;
        while queue.len() > 0
            invariant
                breadth_first(state@, par, h),
                indexed(state@, par, memo@),
                0 <= h <= state@.len(),
                state@[0] == root,
                root == old(self).root(),
                forall|i: int| 0 <= i < state@.len() ==> !(#[trigger] state@[i]).is_goal(),
                queue@.len() == state@.len() - h,
                forall|k: int|
                    0 <= k < queue@.len() ==> (#[trigger] queue@[k]).0 == state@[h + k]
                        && queue@[k].1 == h + k,
            decreases usize::MAX - state.len(), queue.len(),
        {
            let ghost before = state@.len();
            let (cur, pid) = queue.pop_front().unwrap();
            let succ = cur.next_states();
            let mut m: usize = 0;
            while m < succ.len()
                invariant
                    breadth_first(state@, par, h),
                    indexed(state@, par, memo@),
                    0 <= h < state@.len(),
                    before <= state@.len(),
                    state@[0] == root,
                    root == old(self).root(),
                    forall|i: int| 0 <= i < state@.len() ==> !(#[trigger] state@[i]).is_goal(),
                    pid == h,
                    cur == state@[h],
                    succ@ == cur.successors(),
                    m <= succ.len(),
                    forall|x: int| 0 <= x < m ==> known(state@, par, #[trigger] succ@[x], h),
                    queue@.len() == state@.len() - (h + 1),
                    forall|k: int|
                        0 <= k < queue@.len() ==> (#[trigger] queue@[k]).0 == state@[h + 1 + k]
                            && queue@[k].1 == h + 1 + k,
                decreases succ.len() - m,
            {
                let next = succ[m];
                let k = next.key();
                proof {
                    lemma_recorded(state@, par, memo@, next);
                    assert(cur.successors().contains(succ@[m as int]));
                }
                if !visited(&memo, k) {
                    let ghost t = state@;
                    let ghost old_par = par;
                    let ghost old_memo = memo@;
                    let id = state.len();
                    state.push(next);
                    assert(state.len() == id + 1);
                    record(&mut memo, k, (id, pid));
                    queue.push_back((next, id));
                    proof {
                        lemma_discover(t, old_par, old_memo, h, next, m as int);
                        par = par.push(pid);
                    }
                    if next.is_goal() {
                        proof {
                            lemma_parents_of(state@, par, memo@);
                            lemma_index_of(state@, id as int);
                            assert forall|p: Seq<State>| #[trigger]
                                is_path(p) && p[0] == root && p.last().is_goal() implies path_to(
                                state@,
                                par,
                                id as int,
                            ).len() <= p.len() by {
                                lemma_goal_is_nearest(state@, par, p);
                            }
                            lemma_path_to(state@, par, id as int);
                            assert(is_path(path_to(state@, par, id as int)));
                            assert(reachable(root, next) && next.is_goal());
                        }
                        *self = Solver { state, memo };
                        return Ok(next);
                    }
                }
                m = m + 1;
            }
            proof {
                assert forall|q: int, s: State|
                    0 <= q < h + 1 && #[trigger] state@[q].successors().contains(s) implies known(
                    state@,
                    par,
                    s,
                    q,
                ) by {
                    if q == h {
                        let x = choose|x: int| 0 <= x < succ@.len() && succ@[x] == s;
                        assert(known(state@, par, succ@[x], h));
                    }
                }
                h = h + 1;
            }
        }
        proof {
            lemma_parents_of(state@, par, memo@);
            let t = state@;
            assert(h == t.len());
            assert(ran_out(t, par));
            assert forall|s: State| t.contains(s) <==> reachable(root, s) by {
                lemma_ran_out(t, par, s);
            }
            assert forall|s: State| reachable(root, s) implies !s.is_goal() by {
                lemma_ran_out(t, par, s);
            }
        }
        *self = Solver { state, memo };
        Err(SolverError::NoSolution)
    }

    /// The recorded way from the root to `state`, root first.
    pub fn restore(&self, state: &State) -> (r: Result<Vec<State>, SolverError>)
        ensures
            match r {
                Ok(path) => {
                    &&& self.table().contains(*state)
                    &&& path@ == self.route(*state)
                    &&& is_path(path@)
                    &&& path@[0] == self.root()
                    &&& path@.last() == *state
                    &&& path@.no_duplicates()
                },
                Err(e) => e == SolverError::MissingRecord && !self.table().contains(*state),
            },
    {
        proof {
            use_type_invariant(self);
            lemma_recorded(self.state@, self.parents(), self.memo@, *state);
        }
        let entry = match lookup(&self.memo, state.key()) {
            Some(entry) => entry,
            None => {
                return Err(SolverError::MissingRecord);
            },
        };
        let ghost t = self.state@;
        let ghost par = self.parents();
        let ghost route = self.route(*state);
        proof {
            lemma_index_of(t, entry.0 as int);
            lemma_path_to(t, par, entry.0 as int);
            lemma_path_to_distinct(t, par, entry.0 as int);
            assert(entry.0 < self.state.len());
        }
        let mut states: Vec<State> = Vec::new();
        let mut id: usize = entry.0;
        while id != NO_PARENT
            invariant
                t == self.state@,
                par == parents_of(self.state@, self.memo@),
                linked(t, par),
                indexed(t, par, self.memo@),
                states@.len() <= route.len(),
                forall|k: int| 0 <= k < states@.len() ==> states@[k] == route[route.len() - 1 - k],
                id != NO_PARENT ==> id < t.len() && path_to(t, par, id as int) == route.subrange(
                    0,
                    route.len() - states@.len(),
                ),
                id == NO_PARENT ==> states@.len() == route.len(),
            decreases
                    (if id == NO_PARENT {
                        0
                    } else {
                        id + 1
                    }),
        {
            let cur = self.state[id];
            states.push(cur);
            proof {
                lemma_path_to(t, par, id as int);
                if id > 0 {
                    lemma_path_to(t, par, par[id as int] as int);
                    assert(path_to(t, par, par[id as int] as int) =~= route.subrange(
                        0,
                        route.len() - states@.len(),
                    ));
                }
            }
            id = match lookup(&self.memo, cur.key()) {
                Some(entry) => entry.1,
                None => NO_PARENT,
            };
        }
        let mut path: Vec<State> = Vec::new();
        while states.len() > 0
            invariant
                states@.len() + path@.len() == route.len(),
                forall|k: int| 0 <= k < states@.len() ==> states@[k] == route[route.len() - 1 - k],
                forall|k: int| 0 <= k < path@.len() ==> path@[k] == route[k],
            decreases states.len(),
        {
            let s = states.pop().unwrap();
            path.push(s);
        }
        assert(path@ =~= route);
        Ok(path)
    }
}

/// The way that the engine records to the goal it found is a shortest one:
/// no walk from the root to any goal has fewer states.
pub proof fn lemma_shortest(solver: Solver, g: State, way: Seq<State>, other: Seq<State>)
    requires
        solver.found(g),
        way == solver.route(g),
        is_path(other),
        other[0] == solver.root(),
        other.last().is_goal(),
    ensures
        way.len() <= other.len(),
{
}

/// The recorded way to a discovered state is a walk from the root to that
/// state which passes through no state twice.
pub proof fn lemma_route(solver: Solver, s: State)
    requires
        solver.inv(),
        solver.table().contains(s),
    ensures
        is_path(solver.route(s)),
        solver.route(s)[0] == solver.root(),
        solver.route(s).last() == s,
        solver.route(s).no_duplicates(),
{
    let i = solver.table().index_of(s);
    lemma_path_to(solver.table(), solver.parents(), i);
    lemma_path_to_distinct(solver.table(), solver.parents(), i);
}

/// Where the root is well formed, any two neighbours on a recorded way are
/// one slide apart in both directions: each is a successor of the other.
pub proof fn lemma_route_both_ways(solver: Solver, s: State, i: int)
    requires
        solver.inv(),
        valid(solver.root()),
        solver.table().contains(s),
        0 <= i < solver.route(s).len() - 1,
    ensures
        solver.route(s)[i].successors().contains(solver.route(s)[i + 1]),
        solver.route(s)[i + 1].successors().contains(solver.route(s)[i]),
        solver.route(s)[i] != solver.route(s)[i + 1],
{
    let way = solver.route(s);
    lemma_route(solver, s);
    assert(step_at(way, i));
    lemma_path_prefix(way, i + 1);
    lemma_path_valid(way.subrange(0, i + 1));
    lemma_reversible(way[i], way[i + 1]);
}

/// The outcome of a search depends on the root alone: two engines with the
/// same root that have both ended hold the same table, and so give the same
/// answer.
pub proof fn lemma_same_outcome(a: Solver, b: Solver, ga: State, gb: State)
    requires
        a.root() == b.root(),
        a.found(ga) || a.exhausted(),
        b.found(gb) || b.exhausted(),
    ensures
        a.table() == b.table(),
        a.parents() == b.parents(),
        a.found(ga) <==> b.found(ga),
        a.found(ga) && b.found(gb) ==> ga == gb,
        a.exhausted() <==> b.exhausted(),
{
    lemma_search_unique(a.table(), a.parents(), b.table(), b.parents());
}

} // verus!
