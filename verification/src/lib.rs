//! Chess inputs for a neural network: piece-square inputs in a bucket for each king
//! square, followed by one input for each threat, that is each piece that attacks
//! or defends another.
//!
//! - `bits`, `geometry` and `attacks`: squares, rays, and how the pieces attack.
//! - `layout`, `totals` and `tables`: the numbering of the threats.
//! - `board`, `threats` and `mirror`: the threats on a board, and on its mirror
//!   image.
//! - `inputs`: the inputs of the network.
//! - `filter`: which positions are trained on.
//! - `session`, `checkpoints` and `numbers`: how long a run is, and where it resumes.

pub mod attacks;
pub mod bits;
pub mod board;
pub mod checkpoints;
pub mod filter;
pub mod geometry;
pub mod inputs;
pub mod layout;
pub mod mirror;
pub mod numbers;
pub mod session;
pub mod tables;
pub mod threats;
pub mod totals;
