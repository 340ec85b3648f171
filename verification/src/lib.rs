//! A small framework for turn-based, perfect-information, two-player games
//! (Tic-Tac-Toe, Connect-4) with pluggable decision-making agents, built
//! around a Monte Carlo Tree Search engine over an arena-allocated game tree.

pub mod games;
pub mod players;
