//! A verified engine for a two-player connection game on a fixed 7x6 grid
//! with a four-in-a-row win condition: the board state machine that enforces
//! move legality and detects wins and draws, a random rollout simulator, and
//! a Monte Carlo search tree with upper-confidence move selection.
pub mod board;
pub mod montecarlo;
pub mod movetree;
pub mod score;
