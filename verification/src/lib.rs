//! Travelling-salesman solvers over a dense square matrix of `u32` edge
//! weights, with `u32::MAX` as the "no edge" sentinel and node 0 as the fixed
//! depot.
//!
//! Two strategies are offered. The exact Held-Karp solver
//! ([`solvers::dp::DPSolver`]) is proved to return a valid closed tour of
//! minimum saturating cost over every tour, or the matching error. The
//! genetic search ([`solvers::ga::sequential::SequentialGASolver`] and the
//! [`solver::GeneticAlgorithm`] capability set) is proved to return a valid
//! closed tour whose reported cost is the true cost of that tour, for every
//! draw its random source can make; a work-parallel caller can fan
//! [`solvers::ga::engine::produce_offspring`] out over disjoint ranges of the
//! next generation.

pub mod rng;
pub mod solver;
pub mod solvers;
pub mod tour;
