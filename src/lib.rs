//! Number walls: a two-dimensional integer array whose row 0 is a seed
//! sequence and whose other rows follow a Somos-style recurrence with exact
//! divisions, evaluated lazily with memoisation.

pub mod generator;
pub mod text;
pub mod wall;

pub use generator::{binary, knight, rook, rueppel, square, Function};
pub use text::{parse_decimal, to_decimal};
pub use wall::{exact_div, EvalError, Wall, DEFAULT_DEPTH_LIMIT};
