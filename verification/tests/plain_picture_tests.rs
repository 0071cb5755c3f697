use shogi_puzzle::state::State;

#[test]
fn picture_of_the_initial_state_without_colours() {
    colored::control::set_override(false);
    let expected = "┏━━────━━┓\n\
                    ┃██    ██┃\n\
                    ┃████████┃\n\
                    ┃████████┃\n\
                    ┃████████┃\n\
                    ┃████████┃\n\
                    ┗━━━━━━━━┛\n";
    assert_eq!(State::get_initial_state().prerry_print(), expected);
}

#[test]
fn picture_of_an_empty_board() {
    colored::control::set_override(false);
    let expected = "┏━━────━━┓\n\
                    ┃        ┃\n\
                    ┃        ┃\n\
                    ┃        ┃\n\
                    ┃        ┃\n\
                    ┃        ┃\n\
                    ┗━━━━━━━━┛\n";
    assert_eq!(State([0, 0, 0, 0]).prerry_print(), expected);
}
