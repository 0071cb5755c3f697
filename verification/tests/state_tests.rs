use shogi_puzzle::state::State;

#[test]
fn test_pretty_print() {
    let field = State::get_initial_state();
    println!("{}", field.prerry_print());
}

#[test]
fn test_next_states() {
    let field = State::get_initial_state();
    println!("Initial State");
    println!("{}", field.prerry_print());

    let next_states = field.next_states();

    println!("Next States");
    for state in next_states {
        println!("{}", state.prerry_print());
    }

    let field2 = field.next_states().into_iter().nth(2).unwrap();
    println!("2nd State");
    println!("{}", field2.prerry_print());

    println!("Next States");
    for state in field2.next_states() {
        println!("{}", state.prerry_print());
    }

    let field3 = field2.next_states().into_iter().nth(3).unwrap();
    println!("3rd State");
    println!("{}", field3.prerry_print());

    println!("Next States");
    for state in field3.next_states() {
        println!("{}", state.prerry_print());
    }

    let field4 = field3.next_states().into_iter().nth(2).unwrap();
    println!("4th State");
    println!("{}", field4.prerry_print());

    println!("Next States");
    for state in field4.next_states() {
        println!("{}", state.prerry_print());
    }
}

#[test]
fn test_is_goal() {
    let field = State::get_initial_state();
    println!("{}", field.prerry_print());
    assert!(!field.is_goal());

    let field = State([
        0b1001_0110_0000_0000_0000,
        0b1001_1001_1001_1001_0000,
        0b0110_0000_0000_0000_0000,
        0b0000_0000_0000_0110_0110,
    ]);
    println!("{}", field.prerry_print());
    assert!(field.is_goal());
}

#[test]
fn initial_state_is_the_reference_layout() {
    assert_eq!(
        State::get_initial_state(),
        State([0x00069, 0x99990, 0x00600, 0x66000])
    );
}

#[test]
fn initial_state_has_four_successors_in_order() {
    let rest = [0x99990, 0x00600, 0x66000];
    let expected: Vec<State> = [0x6a, 0x65, 0x4b, 0x2d]
        .iter()
        .map(|&singles| State([singles, rest[0], rest[1], rest[2]]))
        .collect();
    assert_eq!(State::get_initial_state().next_states(), expected);
}

#[test]
fn successors_are_the_same_at_every_call() {
    let field = State::get_initial_state();
    let third = field.next_states()[2];
    assert_eq!(field.next_states(), field.next_states());
    assert_eq!(third.next_states(), third.next_states());
}

#[test]
fn every_move_can_be_undone() {
    let mut frontier = vec![State::get_initial_state()];
    for _ in 0..4 {
        let mut next = Vec::new();
        for a in &frontier {
            for b in a.next_states() {
                assert!(b.next_states().contains(a));
                next.push(b);
            }
        }
        frontier = next;
    }
    assert!(frontier.len() > 4);
}

#[test]
fn successors_keep_occupancy_and_shapes() {
    let start = State::get_initial_state();
    let mut frontier = vec![start];
    for _ in 0..5 {
        let mut next = Vec::new();
        for a in &frontier {
            for b in a.next_states() {
                let all = b.0[0] | b.0[1] | b.0[2] | b.0[3];
                assert_eq!(all.count_ones(), 18);
                for k in 0..4 {
                    assert_eq!(b.0[k].count_ones(), start.0[k].count_ones());
                    for l in 0..k {
                        assert_eq!(b.0[k] & b.0[l], 0);
                    }
                }
                assert_eq!(all >> 20, 0);
                next.push(b);
            }
        }
        frontier = next;
    }
}

#[test]
fn a_piece_on_an_edge_does_not_wrap_around() {
    // The flat domino lies on cells 2 and 3, against the right edge, with
    // cell 4 free: a slide to the right would wrap it into the next row.
    let field = State([0, 0, 0b1100, 0]);
    for next in field.next_states() {
        assert_ne!(next.0[2], 0b1_1000);
    }
}

#[test]
fn an_overlapping_slide_is_left_out() {
    // The square may only slide left: everything else is wall or edge.
    let field = State([0, 0, 0x88fff, 0x66000]);
    assert_eq!(field.next_states(), vec![State([0, 0, 0x88fff, 0x33000])]);
}

#[test]
fn a_state_with_too_few_cells_has_no_successors() {
    let field = State([0, 0, 0, 0x66000]);
    assert!(field.next_states().is_empty());
}

#[test]
fn decompose_splits_the_upright_dominoes() {
    assert_eq!(
        State::decompose_2x1(0x99990),
        [0x00110, 0x00880, 0x11000, 0x88000]
    );
    assert_eq!(
        State::decompose_2x1(0x1111 | 0x0022 | 0x0088),
        [0x0011, 0x0022, 0x0088, 0x1100]
    );
}

#[test]
fn decompose_pads_with_zero() {
    assert_eq!(State::decompose_2x1(0), [0, 0, 0, 0]);
    assert_eq!(State::decompose_2x1(0x11), [0x11, 0, 0, 0]);
}

#[test]
fn decompose_stops_after_four_dominoes() {
    assert_eq!(
        State::decompose_2x1(0x000ff | 0x01100),
        [0x11, 0x22, 0x44, 0x88]
    );
}

#[test]
fn goal_is_the_square_on_cells_1_2_5_6() {
    assert!(State([0, 0, 0, 0x66]).is_goal());
    assert!(!State([0x66, 0, 0, 0]).is_goal());
    assert!(!State([0, 0, 0, 0x660]).is_goal());
}

#[test]
fn keys_tell_states_apart() {
    let a = State([1, 2, 3, 4]);
    assert_eq!(a.key(), 1 | (2 << 32) | (3 << 64) | (4 << 96));
    assert_ne!(State([1, 0, 0, 0]).key(), State([0, 1, 0, 0]).key());
    assert_ne!(State([0, 0, 1, 0]).key(), State([0, 0, 0, 1]).key());
    assert_eq!(
        State([u32::MAX, 0, 0, u32::MAX]).key(),
        (u32::MAX as u128) | ((u32::MAX as u128) << 96)
    );
}

#[test]
fn cell_labels_of_the_initial_state() {
    assert_eq!(
        State::get_initial_state().cell_labels(),
        [1, 0, 0, 1, 2, 1, 1, 3, 2, 6, 6, 3, 4, 7, 7, 5, 4, 7, 7, 5]
    );
}

#[test]
fn later_groups_cover_earlier_ones_in_the_labels() {
    let field = State([0b11, 0, 0b10, 0]);
    let labels = field.cell_labels();
    assert_eq!(labels[0], 1);
    assert_eq!(labels[1], 6);
    assert_eq!(labels[2], 0);
}

#[test]
fn a_move_out_of_a_malformed_state_need_not_be_undone() {
    // Five single cells: the one on cell 1 slides down onto the one on
    // cell 5, which gives the starting layout.
    let crowded = State([0x6b, 0x99990, 0x00600, 0x66000]);
    let start = State::get_initial_state();
    assert!(crowded.next_states().contains(&start));
    assert!(!start.next_states().contains(&crowded));
}

#[test]
fn a_well_formed_state_has_at_most_forty_successors() {
    let mut frontier = vec![State::get_initial_state()];
    for _ in 0..6 {
        let mut next = Vec::new();
        for a in &frontier {
            let successors = a.next_states();
            assert!(successors.len() <= 40);
            next.extend(successors);
        }
        frontier = next;
    }
}
