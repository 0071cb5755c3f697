//! Breadth-first solver for a sliding-block puzzle on a board of four
//! columns and five rows, with every board packed into bit masks.

pub mod bits;
pub mod state;
pub mod rules;
pub mod walk;
pub mod table;
pub mod solver;
pub mod render;
