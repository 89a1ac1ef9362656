//! Solvers for a handful of integer puzzles. The centre piece is a search
//! for boards of two-colour tiles, distinct up to rotation and mirroring,
//! laid so that as few same-coloured cells as possible touch; beside it
//! live a time-varying cheese maze and an index of pseudo-random vectors.
use vstd::prelude::*;

pub mod tile;
pub mod store;
pub mod board;
pub mod search;
pub mod cheese_maze;
pub mod quadratic_solver;
