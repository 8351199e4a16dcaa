//! Small integer maths, matrices over integers, packed exponent registers
//! and a terminal drawing grid.
pub mod maths;
pub mod utils;
pub mod game;
pub mod bits;
pub mod mathfn;
pub mod swar;
pub mod register;
pub mod math_tree;
pub mod expended;
pub mod collections;
pub mod linalg;
pub mod matrix_laws;
pub mod matrix_text;
pub mod determinant;
