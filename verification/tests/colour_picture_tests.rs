use shogi_puzzle::render::Tint;
use shogi_puzzle::state::State;

fn tile(code: &str) -> String {
    format!("\x1b[{}m██\x1b[0m", code)
}

#[test]
fn picture_of_the_initial_state_in_colours() {
    colored::control::set_override(true);
    let (g, c, b, w, p, y, r) = (
        tile("32"),
        tile("36"),
        tile("34"),
        tile("37"),
        tile("35"),
        tile("33"),
        tile("31"),
    );
    let mut expected = String::from("┏━━────━━┓\n");
    expected += &format!("┃{}    {}┃\n", g, g);
    expected += &format!("┃{}{}{}{}┃\n", c, g, g, b);
    expected += &format!("┃{}{}{}{}┃\n", c, y, y, b);
    expected += &format!("┃{}{}{}{}┃\n", w, r, r, p);
    expected += &format!("┃{}{}{}{}┃\n", w, r, r, p);
    expected += "┗━━━━━━━━┛\n";
    assert_eq!(State::get_initial_state().prerry_print(), expected);
}

#[test]
fn every_label_of_a_piece_has_its_colour() {
    assert_eq!(Tint::of(0), None);
    assert_eq!(Tint::of(1), Some(Tint::Green));
    assert_eq!(Tint::of(2), Some(Tint::Cyan));
    assert_eq!(Tint::of(3), Some(Tint::Blue));
    assert_eq!(Tint::of(4), Some(Tint::White));
    assert_eq!(Tint::of(5), Some(Tint::Purple));
    assert_eq!(Tint::of(6), Some(Tint::Yellow));
    assert_eq!(Tint::of(7), Some(Tint::Red));
    assert_eq!(Tint::of(8), None);
}
