//! A combined solver over one matrix: the exact Held-Karp search as a method,
//! and the genetic search through the `GeneticAlgorithm` capability set, with
//! a per-instance population sized to the matrix.

use vstd::prelude::*;

pub use crate::solvers::dp::SolverError;
pub use crate::solvers::ga::chromosome::Chromosome;
pub use crate::solvers::ga::ga::GeneticAlgorithm;

use crate::solvers::dp::{held_karp, held_karp_post};
use crate::solvers::ga::ga::ga_solve_post;
use crate::solvers::ga::engine::{
    crossover_pair, mutate_in_place, random_tour, run_search, select_pair,
};
use crate::tour::{mat, matrix_wf, valid_tour};

verus! {

/// A genetic search never beats the exact solver: whatever tour the search
/// reports, its cost is bounded below by the optimum Held-Karp returns for
/// the same matrix.
pub proof fn lemma_search_never_beats_exact(
    m: Seq<Seq<u32>>,
    genetic: (u32, Vec<usize>),
    exact: (u32, Vec<usize>),
)
    requires
        m.len() >= 2,
        ga_solve_post(m, genetic),
        held_karp_post(m, Ok(exact)),
    ensures
        genetic.0 >= exact.0,
{
    assert(valid_tour(m.len() as int, genetic.1@));
    assert(crate::tour::path_cost(m, genetic.1@) >= exact.0 as int);
}

/// A solver holding one distance matrix for both strategies.
pub struct Solver {
    matrix: Vec<Vec<u32>>,
}

impl Solver {
    /// Wrap a matrix; nothing is validated until a solve runs.
    pub fn new(matrix: Vec<Vec<u32>>) -> (s: Self)
        ensures
            s.matrix_view() == mat(matrix@),
            s.wf() == matrix_wf(mat(matrix@)),
    {
        Self { matrix }
    }

    /// The exact Held-Karp solve over the held matrix.
    pub fn sequential_held_karp(&self) -> (r: Result<(u32, Vec<usize>), SolverError>)
        ensures
            held_karp_post(self.matrix_view(), r),
    {
        held_karp(&self.matrix)
    }
}

impl GeneticAlgorithm for Solver {
    closed spec fn matrix_view(&self) -> Seq<Seq<u32>> {
        mat(self.matrix@)
    }

    closed spec fn wf(&self) -> bool {
        matrix_wf(mat(self.matrix@))
    }

    fn solve(&self, rng: &mut rand::rngs::StdRng) -> (r: (u32, Vec<usize>)) {
        let n = self.matrix.len();
        if n == 0 {
            return (0, Vec::new());
        }
        if n == 1 {
            let t = vec![0usize, 0usize];
            proof {
                assert(t@ == seq![0usize, 0usize]);
            }
            return (0, t);
        }
        let pop_size = if n - 1 > 0x1000_0000 {
            0x1000_0000
        } else {
            n - 1
        };
        run_search(&self.matrix, pop_size, 1, 1000000, rng)
    }

    fn random_gnome(&self, rng: &mut rand::rngs::StdRng) -> (t: Vec<usize>) {
        random_tour(&self.matrix, rng)
    }

    fn crossover(&self, parent_1: &Chromosome, parent_2: &Chromosome, rng: &mut rand::rngs::StdRng)
        -> (c: (Chromosome, Chromosome)) {
        crossover_pair(&self.matrix, parent_1, parent_2, rng)
    }

    fn mutate(&self, individual: &mut Chromosome, rng: &mut rand::rngs::StdRng) {
        mutate_in_place(&self.matrix, individual, rng)
    }

    fn select(&self, population: &[Chromosome], rng: &mut rand::rngs::StdRng) -> (r: (
        usize,
        usize,
    )) {
        select_pair(population, rng)
    }
}

} // verus!
