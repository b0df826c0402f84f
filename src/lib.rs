//! A solver for a stacked-dial rotation puzzle: five dials of four rings,
//! twelve columns each, whose visible values must sum to a target in every
//! column.

pub mod puzzle;
pub mod solver;
pub mod load;
