//! The single-threaded genetic search: a fixed-size population evolved for a
//! fixed number of generations, reporting the cheapest member found.

use vstd::prelude::*;

use crate::solvers::ga::chromosome::Chromosome;
use crate::solvers::ga::engine::{
    crossover_pair, mutate_in_place, random_tour, run_search, select_pair,
};
use crate::solvers::ga::ga::GeneticAlgorithm;
use crate::tour::{mat, matrix_wf};

verus! {

/// Reference configuration of the sequential search.
pub const DEFAULT_POPULATION: usize = 999;

/// Reference generation budget of the sequential search.
pub const DEFAULT_GENERATIONS: usize = 100000;

/// How many of the cheapest members survive each generation unchanged.
pub const ELITE_PREFIX: usize = 3;

/// The single-threaded genetic solver.
pub struct SequentialGASolver {
    matrix: Vec<Vec<u32>>,
    pop_size: usize,
    generations: usize,
}

impl SequentialGASolver {
    /// Wrap a matrix with the reference population size and budget.
    pub fn new(matrix: Vec<Vec<u32>>) -> (s: Self)
        ensures
            s.matrix_view() == mat(matrix@),
            s.wf() == matrix_wf(mat(matrix@)),
    {
        Self { matrix, pop_size: DEFAULT_POPULATION, generations: DEFAULT_GENERATIONS }
    }

    /// Wrap a matrix with a caller-chosen population size and budget.
    pub fn with_budget(matrix: Vec<Vec<u32>>, pop_size: usize, generations: usize) -> (s: Self)
        requires
            1 <= pop_size <= 0x1000_0000,
        ensures
            s.matrix_view() == mat(matrix@),
            s.wf() == matrix_wf(mat(matrix@)),
    {
        Self { matrix, pop_size, generations }
    }
}

impl GeneticAlgorithm for SequentialGASolver {
    closed spec fn matrix_view(&self) -> Seq<Seq<u32>> {
        mat(self.matrix@)
    }

    closed spec fn wf(&self) -> bool {
        matrix_wf(mat(self.matrix@)) && 1 <= self.pop_size <= 0x1000_0000
    }

    fn solve(&self, rng: &mut rand::rngs::StdRng) -> (r: (u32, Vec<usize>)) {
        let n = self.matrix.len();
        if n == 0 {
            return (0, Vec::new());
        }
        if n == 1 {
            let t = vec![0usize, 0usize];
            proof {
                assert(t@ == seq![0usize, 0usize]);
            }
            return (0, t);
        }
        run_search(&self.matrix, self.pop_size, ELITE_PREFIX, self.generations, rng)
    }

    fn random_gnome(&self, rng: &mut rand::rngs::StdRng) -> (t: Vec<usize>) {
        random_tour(&self.matrix, rng)
    }

    fn crossover(&self, parent_1: &Chromosome, parent_2: &Chromosome, rng: &mut rand::rngs::StdRng)
        -> (c: (Chromosome, Chromosome)) {
        crossover_pair(&self.matrix, parent_1, parent_2, rng)
    }

    fn mutate(&self, individual: &mut Chromosome, rng: &mut rand::rngs::StdRng) {
        mutate_in_place(&self.matrix, individual, rng)
    }

    fn select(&self, population: &[Chromosome], rng: &mut rand::rngs::StdRng) -> (r: (
        usize,
        usize,
    )) {
        select_pair(population, rng)
    }
}

} // verus!
