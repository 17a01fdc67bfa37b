//! A scalar reverse-mode automatic-differentiation engine over an arena of
//! nodes, with a small feed-forward neural network built on top of it.
pub mod scalar;
pub mod engine;
pub mod nn;
