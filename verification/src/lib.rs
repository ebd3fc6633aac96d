//! A verified core for a two-player no-limit hold'em subgame solver.
//!
//! The crate builds betting trees from game parameters, manages per-board
//! hand ranges with suit-isomorphism bookkeeping, and evaluates showdown
//! and fold utilities exactly.  The floating-point regret-matching loop
//! that drives training sits outside the verified core and consumes the
//! structures and projections proved here.
pub mod cards;
pub mod combination;
pub mod evaluator;
pub mod isomorphism;
pub mod laws;
pub mod parse;
pub mod range_manager;
pub mod showdown;
pub mod traversal;
pub mod tree;
