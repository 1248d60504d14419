pub mod bits;
pub mod side;
pub mod board;
pub mod nodes;
pub mod search;
