//! A candidate tour paired with its cached cost. The cache is recomputed
//! whenever a chromosome is built or mutated, and the contracts keep it equal
//! to the true saturating cost of the tour it carries.

use vstd::prelude::*;

use crate::tour::{edge, mat, matrix_wf, path_cost, sat, sat_add, valid_tour, w_at};

verus! {

/// A candidate tour plus its cached cost.
#[derive(Debug)]
pub struct Chromosome {
    pub gnome: Vec<usize>,
    pub fitness: u32,
}

impl Chromosome {
    /// The cached cost equals the recomputed cost of the tour.
    pub open spec fn cached(&self, m: Seq<Seq<u32>>) -> bool {
        self.fitness as int == path_cost(m, self.gnome@)
    }

    /// A well-formed member for the instance `m`: a valid closed tour with an
    /// honest cache.
    pub open spec fn wf(&self, m: Seq<Seq<u32>>) -> bool {
        &&& valid_tour(m.len() as int, self.gnome@)
        &&& self.cached(m)
    }

    /// Saturating sum of the weights of consecutive nodes of `gnome`.
    pub fn fitness(gnome: &Vec<usize>, matrix: &Vec<Vec<u32>>) -> (r: u32)
        requires
            matrix_wf(mat(matrix@)),
            forall|i: int| 0 <= i < gnome@.len() ==> (#[trigger] gnome@[i]) < matrix@.len(),
        ensures
            r as int == path_cost(mat(matrix@), gnome@),
    {
        let ghost m = mat(matrix@);
        let len = gnome.len();
        if len <= 1 {
            return 0;
        }
        let mut acc: u32 = 0;
        let mut i: usize = 0;
        while i + 1 < len
            invariant
                matrix_wf(m),
                m == mat(matrix@),
                len == gnome@.len(),
                len >= 2,
                forall|k: int| 0 <= k < gnome@.len() ==> (#[trigger] gnome@[k]) < matrix@.len(),
                i + 1 <= len,
                acc as int == path_cost(m, gnome@.subrange(0, i + 1)),
            decreases len - i,
        {
            let wnext = w_at(matrix, gnome[i], gnome[i + 1]);
            proof {
                let pre = gnome@.subrange(0, i + 1);
                let post = gnome@.subrange(0, i + 2);
                assert(post.drop_last() =~= pre);
                assert(post[post.len() - 2] == gnome@[i as int]);
                assert(post[post.len() - 1] == gnome@[i + 1]);
            }
            acc = sat_add(acc, wnext);
            i += 1;
        }
        proof {
            assert(gnome@.subrange(0, i + 1) =~= gnome@);
        }
        acc
    }

    /// Build a member over `gnome`, computing the cache from scratch.
    pub fn new(matrix: &Vec<Vec<u32>>, gnome: Vec<usize>) -> (c: Self)
        requires
            matrix_wf(mat(matrix@)),
            forall|i: int| 0 <= i < gnome@.len() ==> (#[trigger] gnome@[i]) < matrix@.len(),
        ensures
            c.gnome@ == gnome@,
            c.cached(mat(matrix@)),
    {
        let fitness = Self::fitness(&gnome, matrix);
        Self { gnome, fitness }
    }

    /// An element-for-element copy.
    pub fn duplicate(&self) -> (c: Self)
        ensures
            c.gnome@ == self.gnome@,
            c.fitness == self.fitness,
    {
        let mut g: Vec<usize> = Vec::new();
        let mut i: usize = 0;
        while i < self.gnome.len()
            invariant
                i <= self.gnome@.len(),
                g@ =~= self.gnome@.subrange(0, i as int),
            decreases self.gnome@.len() - i,
        {
            g.push(self.gnome[i]);
            i += 1;
        }
        proof {
            assert(g@ =~= self.gnome@);
        }
        Self { gnome: g, fitness: self.fitness }
    }
}

} // verus!
