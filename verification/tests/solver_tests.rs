use std::collections::{HashMap, VecDeque};

use shogi_puzzle::solver::{Solver, SolverError};
use shogi_puzzle::state::State;

/// The fewest slides from `root` to a goal, by a plain search of its own.
fn brute_force_depth(root: State) -> Option<usize> {
    let mut depth: HashMap<State, usize> = HashMap::new();
    let mut queue = VecDeque::new();
    depth.insert(root, 0);
    queue.push_back(root);
    while let Some(state) = queue.pop_front() {
        if state.is_goal() {
            return Some(depth[&state]);
        }
        for next in state.next_states() {
            if !depth.contains_key(&next) {
                depth.insert(next, depth[&state] + 1);
                queue.push_back(next);
            }
        }
    }
    None
}

fn assert_is_walk(path: &[State]) {
    for pair in path.windows(2) {
        assert_ne!(pair[0], pair[1]);
        assert!(pair[0].next_states().contains(&pair[1]));
        assert!(pair[1].next_states().contains(&pair[0]));
    }
}

#[test]
fn solve_reaches_the_target() {
    let mut solver = Solver::new();
    let goal = solver.solve().unwrap();
    assert!(goal.is_goal());
    assert_eq!(goal.0[3], 0b0000_0000_0000_0110_0110);
    let path = solver.restore(&goal).unwrap();
    assert_eq!(path[0], State::get_initial_state());
    assert_eq!(path[path.len() - 1], goal);
    assert_eq!(path.len(), 117);
    assert_is_walk(&path);
}

#[test]
fn solve_finds_a_shortest_way() {
    let mut solver = Solver::new();
    let goal = solver.solve().unwrap();
    let path = solver.restore(&goal).unwrap();
    assert_eq!(Some(path.len() - 1), brute_force_depth(State::get_initial_state()));
}

#[test]
fn every_state_on_the_way_is_well_formed() {
    let mut solver = Solver::new();
    let goal = solver.solve().unwrap();
    let start = State::get_initial_state();
    for state in solver.restore(&goal).unwrap() {
        assert_eq!((state.0[0] | state.0[1] | state.0[2] | state.0[3]).count_ones(), 18);
        for k in 0..4 {
            assert_eq!(state.0[k].count_ones(), start.0[k].count_ones());
        }
    }
}

#[test]
fn solve_twice_gives_the_same_answer() {
    let mut solver = Solver::new();
    let first = solver.solve().unwrap();
    let way = solver.restore(&first).unwrap();
    let second = solver.solve().unwrap();
    assert_eq!(first, second);
    assert_eq!(solver.restore(&second).unwrap(), way);
}

#[test]
fn restore_before_solve_knows_the_root_only() {
    let solver = Solver::new();
    let root = State::get_initial_state();
    assert_eq!(solver.restore(&root), Ok(vec![root]));
    let next = root.next_states()[0];
    assert_eq!(solver.restore(&next), Err(SolverError::MissingRecord));
}

#[test]
fn restore_of_an_unknown_state_fails() {
    let mut solver = Solver::new();
    let stranger = State([1, 2, 4, 8]);
    assert_eq!(solver.restore(&stranger), Err(SolverError::MissingRecord));
    solver.solve().unwrap();
    assert_eq!(solver.restore(&stranger), Err(SolverError::MissingRecord));
}

#[test]
fn restore_of_a_state_on_the_way_gives_the_way_so_far() {
    let mut solver = Solver::new();
    let goal = solver.solve().unwrap();
    let path = solver.restore(&goal).unwrap();
    let part = solver.restore(&path[40]).unwrap();
    assert_eq!(part, path[..41].to_vec());
}

#[test]
fn a_reduced_puzzle_is_solved_in_three_slides() {
    // Two single cells under the top edge give way to the square below
    // them; a rigid wall in slot 2 fills the rest of the board.
    let wall = 0xff990;
    let root = State([0b0110, 0, wall, 0x660]);
    let mut solver = Solver::with_initial(root);
    let goal = solver.solve().unwrap();
    assert_eq!(goal, State([0b1001, 0, wall, 0x066]));
    let path = solver.restore(&goal).unwrap();
    assert_eq!(
        path,
        vec![
            root,
            State([0b0101, 0, wall, 0x660]),
            State([0b1001, 0, wall, 0x660]),
            State([0b1001, 0, wall, 0x066]),
        ]
    );
    assert_eq!(brute_force_depth(root), Some(3));
    assert_is_walk(&path);
}

#[test]
fn a_walled_in_square_has_no_solution() {
    // The square can only shuttle between two places in the bottom rows.
    let root = State([0, 0, 0x88fff, 0x66000]);
    let mut solver = Solver::with_initial(root);
    assert_eq!(solver.solve(), Err(SolverError::NoSolution));
    assert_eq!(brute_force_depth(root), None);
    assert_eq!(solver.restore(&root), Ok(vec![root]));
    let aside = State([0, 0, 0x88fff, 0x33000]);
    assert_eq!(solver.restore(&aside), Ok(vec![root, aside]));
}

#[test]
fn singles_that_cannot_step_aside_block_the_square() {
    let wall = 0xfffff ^ 0x6600 ^ 0x60 ^ 0x6;
    let root = State([0x60, 0, wall, 0x6600]);
    let mut solver = Solver::with_initial(root);
    assert_eq!(solver.solve(), Err(SolverError::NoSolution));
    assert_eq!(brute_force_depth(root), None);
}

#[test]
fn a_lone_square_has_no_solution() {
    let mut solver = Solver::with_initial(State([0, 0, 0, 0x66000]));
    assert_eq!(solver.solve(), Err(SolverError::NoSolution));
}

#[test]
fn a_root_that_is_a_goal_is_its_own_answer() {
    let root = State([0, 0, 0xfffff ^ 0x66 ^ 0x9, 0x66]);
    let mut solver = Solver::with_initial(root);
    assert_eq!(solver.solve(), Ok(root));
    assert_eq!(solver.restore(&root), Ok(vec![root]));
}

#[test]
fn a_new_engine_records_the_root_alone() {
    let solver = Solver::new();
    let root = State::get_initial_state();
    assert_eq!(solver.states(), &vec![root]);
    assert_eq!(solver.record_of(&root), Some((0, usize::MAX)));
    assert_eq!(solver.record_of(&root.next_states()[0]), None);
}

#[test]
fn states_are_recorded_in_the_order_of_discovery() {
    let wall = 0xff990;
    let state = |singles: u32, square: u32| State([singles, 0, wall, square]);
    let mut solver = Solver::with_initial(state(0b0110, 0x660));
    solver.solve().unwrap();
    assert_eq!(
        solver.states(),
        &vec![
            state(0b0110, 0x660),
            state(0b0101, 0x660),
            state(0b1010, 0x660),
            state(0b1001, 0x660),
            state(0b0011, 0x660),
            state(0b1100, 0x660),
            state(0b1001, 0x066),
        ]
    );
    let parents: Vec<usize> = solver
        .states()
        .iter()
        .map(|s| solver.record_of(s).unwrap().1)
        .collect();
    assert_eq!(parents, vec![usize::MAX, 0, 0, 1, 1, 2, 3]);
    for (id, s) in solver.states().iter().enumerate() {
        assert_eq!(solver.record_of(s).unwrap().0, id);
    }
}

#[test]
fn the_goal_is_the_last_state_recorded() {
    let mut solver = Solver::new();
    let goal = solver.solve().unwrap();
    let states = solver.states();
    assert_eq!(states[states.len() - 1], goal);
    assert_eq!(states.iter().filter(|s| s.is_goal()).count(), 1);
    let (id, parent) = solver.record_of(&goal).unwrap();
    assert_eq!(id, states.len() - 1);
    assert!(parent < id);
    assert!(states[parent].next_states().contains(&goal));
}

#[test]
fn an_exhausted_search_records_every_reachable_state() {
    let root = State([0, 0, 0x88fff, 0x66000]);
    let mut solver = Solver::with_initial(root);
    assert_eq!(solver.solve(), Err(SolverError::NoSolution));
    assert_eq!(solver.states(), &vec![root, State([0, 0, 0x88fff, 0x33000])]);
}
