//! Exercises the exact Held-Karp solver end to end: reference instances,
//! degenerate inputs, error cases, and agreement with brute force.

use pathfinder::solver::Solver;
use pathfinder::solvers::dp::{DPSolver, SolverError};

fn reference_matrix() -> Vec<Vec<u32>> {
    vec![
        vec![0, 10, 15, 20],
        vec![10, 0, 35, 25],
        vec![15, 35, 0, 30],
        vec![20, 25, 30, 0],
    ]
}

fn tour_cost(matrix: &[Vec<u32>], tour: &[usize]) -> u32 {
    let mut acc: u32 = 0;
    for w in tour.windows(2) {
        acc = acc.saturating_add(matrix[w[0]][w[1]]);
    }
    acc
}

fn assert_valid_tour(n: usize, tour: &[usize]) {
    assert_eq!(tour.len(), n + 1);
    assert_eq!(tour[0], 0);
    assert_eq!(tour[n], 0);
    let mut seen = vec![false; n];
    for &c in &tour[..n] {
        assert!(c < n);
        assert!(!seen[c], "node {} visited twice", c);
        seen[c] = true;
    }
    assert!(seen.iter().all(|&s| s));
}

fn brute_force_min(matrix: &[Vec<u32>]) -> u32 {
    let n = matrix.len();
    let mut interior: Vec<usize> = (1..n).collect();
    let mut best = u32::MAX;
    permute(&mut interior, 0, matrix, &mut best);
    best
}

fn permute(interior: &mut Vec<usize>, k: usize, matrix: &[Vec<u32>], best: &mut u32) {
    let n = matrix.len();
    if k == interior.len() {
        let mut tour = vec![0];
        tour.extend_from_slice(interior);
        tour.push(0);
        let c = tour_cost(matrix, &tour);
        if c < *best {
            *best = c;
        }
        return;
    }
    for i in k..interior.len() {
        interior.swap(k, i);
        permute(interior, k + 1, matrix, best);
        interior.swap(k, i);
    }
    let _ = n;
}

#[test]
fn exact_reference_matrix_cost_is_80() {
    let solver = DPSolver::new(reference_matrix());
    let (cost, tour) = solver.solve().expect("solvable");
    assert_eq!(cost, 80);
    assert_valid_tour(4, &tour);
    assert_eq!(tour_cost(&reference_matrix(), &tour), 80);
}

#[test]
fn exact_reference_tour_is_optimal_cycle() {
    let solver = DPSolver::new(reference_matrix());
    let (_, tour) = solver.solve().expect("solvable");
    // every minimum tour of this matrix is a rotation/reflection of 0-1-3-2-0
    let interior: Vec<usize> = tour[1..4].to_vec();
    assert!(interior == vec![1, 3, 2] || interior == vec![2, 3, 1]);
}

#[test]
fn exact_tour_is_deterministic_with_ascending_tie_breaks() {
    let solver = DPSolver::new(reference_matrix());
    let first = solver.solve().expect("solvable");
    let second = solver.solve().expect("solvable");
    assert_eq!(first, second);
    // both optimal cycles cost 80; the ascending-index tie-break picks the
    // one that closes from node 1
    assert_eq!(first, (80, vec![0, 2, 3, 1, 0]));
}

#[test]
fn exact_single_node_costs_zero() {
    let solver = DPSolver::new(vec![vec![0]]);
    assert_eq!(solver.solve(), Ok((0, vec![0, 0])));
}

#[test]
fn exact_two_nodes() {
    let solver = DPSolver::new(vec![vec![0, 7], vec![9, 0]]);
    assert_eq!(solver.solve(), Ok((16, vec![0, 1, 0])));
}

#[test]
fn exact_disconnected_node_is_infeasible() {
    let inf = u32::MAX;
    let matrix = vec![
        vec![0, 10, 15, inf],
        vec![10, 0, 35, inf],
        vec![15, 35, 0, inf],
        vec![inf, inf, inf, 0],
    ];
    assert_eq!(DPSolver::new(matrix).solve(), Err(SolverError::Infeasible));
}

#[test]
fn exact_saturated_cost_is_infeasible() {
    let big = u32::MAX - 1;
    let matrix = vec![vec![0, big], vec![big, 0]];
    assert_eq!(DPSolver::new(matrix).solve(), Err(SolverError::Infeasible));
}

#[test]
fn exact_empty_matrix_is_invalid() {
    let solver = DPSolver::new(Vec::new());
    assert_eq!(solver.solve(), Err(SolverError::InvalidInput));
}

#[test]
fn exact_non_square_matrix_is_invalid() {
    let solver = DPSolver::new(vec![vec![0, 1], vec![1, 0, 2]]);
    assert_eq!(solver.solve(), Err(SolverError::InvalidInput));
}

#[test]
fn exact_oversized_matrix_is_rejected() {
    let n = 21;
    let matrix = vec![vec![1; n]; n];
    assert_eq!(DPSolver::new(matrix).solve(), Err(SolverError::ResourceExceeded));
}

#[test]
fn exact_matches_brute_force_on_pseudorandom_instances() {
    // deterministic pseudo-random weights from a small linear congruence
    let mut state: u64 = 0x2545_F491_4F6C_DD1D;
    for n in 2..=7usize {
        let mut matrix = vec![vec![0u32; n]; n];
        for (i, row) in matrix.iter_mut().enumerate() {
            for (j, w) in row.iter_mut().enumerate() {
                if i != j {
                    state = state.wrapping_mul(6364136223846793005).wrapping_add(1442695040888963407);
                    *w = (state >> 33) as u32 % 1000;
                }
            }
        }
        let expected = brute_force_min(&matrix);
        let (cost, tour) = DPSolver::new(matrix.clone()).solve().expect("solvable");
        assert_eq!(cost, expected, "n = {}", n);
        assert_valid_tour(n, &tour);
        assert_eq!(tour_cost(&matrix, &tour), cost);
    }
}

#[test]
fn exact_matches_brute_force_with_missing_edges() {
    let inf = u32::MAX;
    let matrix = vec![
        vec![0, 3, inf, 8, 2],
        vec![3, 0, 4, inf, inf],
        vec![inf, 4, 0, 5, 6],
        vec![8, inf, 5, 0, 7],
        vec![2, inf, 6, 7, 0],
    ];
    let expected = brute_force_min(&matrix);
    let (cost, tour) = DPSolver::new(matrix.clone()).solve().expect("solvable");
    assert_eq!(cost, expected);
    assert_eq!(tour_cost(&matrix, &tour), cost);
}

#[test]
fn solver_sequential_held_karp_agrees() {
    let solver = Solver::new(reference_matrix());
    let (cost, tour) = solver.sequential_held_karp().expect("solvable");
    assert_eq!(cost, 80);
    assert_valid_tour(4, &tour);
}
