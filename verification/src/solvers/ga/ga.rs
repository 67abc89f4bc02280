//! The genetic-algorithm capability set: random tours, fitness-proportionate
//! selection, crossover, mutation, and the generation loop, all against a
//! fixed distance matrix and an explicitly passed random source.

use vstd::prelude::*;

use crate::solvers::ga::chromosome::Chromosome;
use crate::solvers::ga::engine::is_crossover;
use crate::tour::{is_interior_swap, path_cost, valid_tour};

verus! {

/// What a genetic search returns: degenerate instances short-circuit to the
/// trivial success (the diagonal is unused, so a single node costs nothing),
/// and otherwise the result is a valid closed tour with its true saturating
/// cost.
pub open spec fn ga_solve_post(m: Seq<Seq<u32>>, r: (u32, Vec<usize>)) -> bool {
    if m.len() == 0 {
        r.0 == 0u32 && r.1@.len() == 0
    } else if m.len() == 1 {
        r.0 == 0u32 && r.1@ == seq![0usize, 0usize]
    } else {
        &&& valid_tour(m.len() as int, r.1@)
        &&& r.0 as int == path_cost(m, r.1@)
    }
}

pub trait GeneticAlgorithm {
    /// The distance matrix this solver searches over.
    spec fn matrix_view(&self) -> Seq<Seq<u32>>;

    /// The held matrix is square.
    spec fn wf(&self) -> bool;

    /// Run the generation loop and report the best member found.
    fn solve(&self, rng: &mut rand::rngs::StdRng) -> (r: (u32, Vec<usize>))
        requires
            self.wf(),
        ensures
            ga_solve_post(self.matrix_view(), r),
    ;

    /// A uniformly random closed tour.
    fn random_gnome(&self, rng: &mut rand::rngs::StdRng) -> (t: Vec<usize>)
        requires
            self.wf(),
            self.matrix_view().len() >= 1,
        ensures
            valid_tour(self.matrix_view().len() as int, t@),
    ;

    /// Exchange a fixed set of shared node identities between two parents,
    /// preserving the permutation structure of both children.
    fn crossover(&self, parent_1: &Chromosome, parent_2: &Chromosome, rng: &mut rand::rngs::StdRng)
        -> (c: (Chromosome, Chromosome))
        requires
            self.wf(),
            self.matrix_view().len() >= 4,
            parent_1.wf(self.matrix_view()),
            parent_2.wf(self.matrix_view()),
        ensures
            c.0.wf(self.matrix_view()),
            c.1.wf(self.matrix_view()),
            is_crossover(
                self.matrix_view(),
                parent_1.gnome@,
                parent_2.gnome@,
                c.0.gnome@,
                c.1.gnome@,
            ),
    ;

    /// Swap two distinct interior positions and refresh the cached cost.
    fn mutate(&self, individual: &mut Chromosome, rng: &mut rand::rngs::StdRng)
        requires
            self.wf(),
            self.matrix_view().len() >= 3,
            old(individual).wf(self.matrix_view()),
        ensures
            final (individual).wf(self.matrix_view()),
            is_interior_swap(
                self.matrix_view().len() as int,
                old(individual).gnome@,
                final (individual).gnome@,
            ),
    ;

    /// Draw two parent indices, biased toward low cost, with replacement.
    fn select(&self, population: &[Chromosome], rng: &mut rand::rngs::StdRng) -> (r: (usize, usize))
        requires
            self.wf(),
            1 <= population@.len() <= 0x1000_0000,
        ensures
            r.0 < population@.len(),
            r.1 < population@.len(),
    ;
}

} // verus!
