//! Exercises the genetic search: permutation preservation of the operators,
//! honesty of the cached fitness, reproducibility under a fixed seed, and the
//! degenerate instances.

use rand::SeedableRng;
use rand::rngs::StdRng;

use pathfinder::solver::{Chromosome, GeneticAlgorithm, Solver};
use pathfinder::solvers::dp::DPSolver;
use pathfinder::solvers::ga::engine::{evolve, produce_offspring, sort_population};
use pathfinder::solvers::ga::sequential::SequentialGASolver;

fn reference_matrix() -> Vec<Vec<u32>> {
    vec![
        vec![0, 10, 15, 20],
        vec![10, 0, 35, 25],
        vec![15, 35, 0, 30],
        vec![20, 25, 30, 0],
    ]
}

fn six_matrix() -> Vec<Vec<u32>> {
    vec![
        vec![0, 4, 9, 3, 7, 5],
        vec![4, 0, 6, 2, 8, 1],
        vec![9, 6, 0, 5, 3, 2],
        vec![3, 2, 5, 0, 9, 4],
        vec![7, 8, 3, 9, 0, 6],
        vec![5, 1, 2, 4, 6, 0],
    ]
}

fn tour_cost(matrix: &[Vec<u32>], tour: &[usize]) -> u32 {
    let mut acc: u32 = 0;
    for w in tour.windows(2) {
        acc = acc.saturating_add(matrix[w[0]][w[1]]);
    }
    acc
}

fn assert_valid_tour(n: usize, tour: &[usize]) {
    assert_eq!(tour.len(), n + 1);
    assert_eq!(tour[0], 0);
    assert_eq!(tour[n], 0);
    let mut seen = vec![false; n];
    for &c in &tour[..n] {
        assert!(c < n);
        assert!(!seen[c], "node {} visited twice", c);
        seen[c] = true;
    }
    assert!(seen.iter().all(|&s| s));
}

#[test]
fn random_gnome_is_a_permutation() {
    let solver = Solver::new(six_matrix());
    let mut rng = StdRng::seed_from_u64(1);
    for _ in 0..20 {
        let g = solver.random_gnome(&mut rng);
        assert_valid_tour(6, &g);
    }
}

#[test]
fn crossover_children_are_permutations_with_fresh_cache() {
    let matrix = six_matrix();
    let solver = Solver::new(matrix.clone());
    let mut rng = StdRng::seed_from_u64(2);
    for _ in 0..50 {
        let p1 = Chromosome::new(&matrix, solver.random_gnome(&mut rng));
        let p2 = Chromosome::new(&matrix, solver.random_gnome(&mut rng));
        let (c1, c2) = solver.crossover(&p1, &p2, &mut rng);
        assert_valid_tour(6, &c1.gnome);
        assert_valid_tour(6, &c2.gnome);
        assert_eq!(c1.fitness, tour_cost(&matrix, &c1.gnome));
        assert_eq!(c2.fitness, tour_cost(&matrix, &c2.gnome));
        // only the three exchanged identities can move: at most three
        // positions of each child differ from its parent
        let d1 = (0..p1.gnome.len()).filter(|&i| p1.gnome[i] != c1.gnome[i]).count();
        let d2 = (0..p2.gnome.len()).filter(|&i| p2.gnome[i] != c2.gnome[i]).count();
        assert!(d1 <= 3);
        assert!(d2 <= 3);
    }
}

#[test]
fn mutate_keeps_permutation_and_refreshes_cache() {
    let matrix = six_matrix();
    let solver = Solver::new(matrix.clone());
    let mut rng = StdRng::seed_from_u64(3);
    let mut c = Chromosome::new(&matrix, solver.random_gnome(&mut rng));
    for _ in 0..50 {
        let before = c.gnome.clone();
        solver.mutate(&mut c, &mut rng);
        assert_valid_tour(6, &c.gnome);
        assert_eq!(c.fitness, tour_cost(&matrix, &c.gnome));
        // exactly two interior positions swapped
        let diffs: Vec<usize> = (0..before.len()).filter(|&i| before[i] != c.gnome[i]).collect();
        assert_eq!(diffs.len(), 2);
        assert!(diffs.iter().all(|&i| i >= 1 && i < 6));
    }
}

#[test]
fn select_returns_indices_in_range() {
    let matrix = six_matrix();
    let solver = Solver::new(matrix.clone());
    let mut rng = StdRng::seed_from_u64(4);
    let population: Vec<Chromosome> = (0..10)
        .map(|_| Chromosome::new(&matrix, solver.random_gnome(&mut rng)))
        .collect();
    for _ in 0..100 {
        let (a, b) = solver.select(&population, &mut rng);
        assert!(a < population.len());
        assert!(b < population.len());
    }
}

#[test]
fn fitness_cache_matches_recomputation() {
    let matrix = six_matrix();
    let gnome = vec![0, 3, 1, 5, 2, 4, 0];
    let c = Chromosome::new(&matrix, gnome.clone());
    assert_eq!(c.fitness, Chromosome::fitness(&gnome, &matrix));
    assert_eq!(c.fitness, 3 + 2 + 1 + 2 + 3 + 7);
}

#[test]
fn fitness_saturates_instead_of_overflowing() {
    let big = u32::MAX - 1;
    let matrix = vec![vec![0, big], vec![big, 0]];
    let gnome = vec![0, 1, 0];
    assert_eq!(Chromosome::fitness(&gnome, &matrix), u32::MAX);
}

#[test]
fn sequential_search_is_reproducible_per_seed_and_never_beats_optimum() {
    let matrix = reference_matrix();
    let (optimal, _) = DPSolver::new(matrix.clone()).solve().expect("solvable");
    assert_eq!(optimal, 80);

    let solver = SequentialGASolver::with_budget(matrix.clone(), 30, 50);
    let mut rng_a = StdRng::seed_from_u64(7);
    let (cost_a, tour_a) = solver.solve(&mut rng_a);
    let mut rng_b = StdRng::seed_from_u64(7);
    let (cost_b, tour_b) = solver.solve(&mut rng_b);

    assert_eq!(cost_a, cost_b);
    assert_eq!(tour_a, tour_b);
    assert!(cost_a >= optimal);
    assert_valid_tour(4, &tour_a);
    assert_eq!(cost_a, tour_cost(&matrix, &tour_a));
}

#[test]
fn sequential_search_empty_matrix() {
    let solver = SequentialGASolver::with_budget(Vec::new(), 5, 5);
    let mut rng = StdRng::seed_from_u64(8);
    assert_eq!(solver.solve(&mut rng), (0, Vec::new()));
}

#[test]
fn sequential_search_single_node() {
    let solver = SequentialGASolver::with_budget(vec![vec![0]], 5, 5);
    let mut rng = StdRng::seed_from_u64(9);
    assert_eq!(solver.solve(&mut rng), (0, vec![0, 0]));
}

#[test]
fn sequential_search_single_node_ignores_the_diagonal() {
    // the diagonal entry is unused: a single node degenerates to cost 0
    let solver = SequentialGASolver::with_budget(vec![vec![5]], 5, 5);
    let mut rng = StdRng::seed_from_u64(21);
    assert_eq!(solver.solve(&mut rng), (0, vec![0, 0]));
}

#[test]
fn sequential_search_two_nodes_finds_the_only_tour() {
    let solver = SequentialGASolver::with_budget(vec![vec![0, 3], vec![4, 0]], 6, 4);
    let mut rng = StdRng::seed_from_u64(10);
    assert_eq!(solver.solve(&mut rng), (7, vec![0, 1, 0]));
}

#[test]
fn sequential_search_three_nodes_returns_valid_tour() {
    let matrix = vec![vec![0, 2, 9], vec![2, 0, 4], vec![9, 4, 0]];
    let solver = SequentialGASolver::with_budget(matrix.clone(), 8, 10);
    let mut rng = StdRng::seed_from_u64(11);
    let (cost, tour) = solver.solve(&mut rng);
    assert_valid_tour(3, &tour);
    assert_eq!(cost, tour_cost(&matrix, &tour));
}

#[test]
fn genetic_solver_on_larger_instance_returns_valid_tour() {
    let matrix = six_matrix();
    let solver = SequentialGASolver::with_budget(matrix.clone(), 40, 30);
    let mut rng = StdRng::seed_from_u64(12);
    let (cost, tour) = solver.solve(&mut rng);
    assert_valid_tour(6, &tour);
    assert_eq!(cost, tour_cost(&matrix, &tour));
    let (optimal, _) = DPSolver::new(matrix).solve().expect("solvable");
    assert!(cost >= optimal);
}

#[test]
fn evolve_never_worsens_the_best_member() {
    let matrix = six_matrix();
    let solver = Solver::new(matrix.clone());
    let mut rng = StdRng::seed_from_u64(13);
    let mut population: Vec<Chromosome> = (0..20)
        .map(|_| Chromosome::new(&matrix, solver.random_gnome(&mut rng)))
        .collect();
    sort_population(&mut population);
    let mut best = population[0].fitness;
    for _ in 0..15 {
        evolve(&matrix, &mut population, 3, &mut rng);
        assert!(population[0].fitness <= best);
        assert!(population.windows(2).all(|w| w[0].fitness <= w[1].fitness));
        best = population[0].fitness;
    }
}

#[test]
fn sort_population_orders_by_fitness() {
    let matrix = six_matrix();
    let solver = Solver::new(matrix.clone());
    let mut rng = StdRng::seed_from_u64(14);
    let mut population: Vec<Chromosome> = (0..25)
        .map(|_| Chromosome::new(&matrix, solver.random_gnome(&mut rng)))
        .collect();
    let mut fitnesses: Vec<u32> = population.iter().map(|c| c.fitness).collect();
    fitnesses.sort();
    sort_population(&mut population);
    let sorted: Vec<u32> = population.iter().map(|c| c.fitness).collect();
    assert_eq!(sorted, fitnesses);
}

#[test]
fn produce_offspring_fills_a_worker_range() {
    let matrix = six_matrix();
    let solver = Solver::new(matrix.clone());
    let mut rng = StdRng::seed_from_u64(15);
    let snapshot: Vec<Chromosome> = (0..12)
        .map(|_| Chromosome::new(&matrix, solver.random_gnome(&mut rng)))
        .collect();
    let mut worker_rng = StdRng::seed_from_u64(99);
    let out = produce_offspring(&matrix, &snapshot, 7, &mut worker_rng);
    assert_eq!(out.len(), 7);
    for c in &out {
        assert_valid_tour(6, &c.gnome);
        assert_eq!(c.fitness, tour_cost(&matrix, &c.gnome));
    }
}

#[test]
fn genetic_solver_trait_solve_on_solver_type() {
    let matrix = reference_matrix();
    // the per-instance population of this solver type is small, so keep the
    // run tiny by using the trait's operators directly on a fresh population
    let solver = Solver::new(matrix.clone());
    let mut rng = StdRng::seed_from_u64(16);
    let g = solver.random_gnome(&mut rng);
    assert_valid_tour(4, &g);
    let c = Chromosome::new(&matrix, g);
    assert_eq!(c.fitness, tour_cost(&matrix, &c.gnome));
}
