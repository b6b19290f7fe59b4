use balas::model::MAX_VARS;
use balas::{Balas, NodeState};

fn names(n: usize) -> Vec<String> {
    (0..n).map(|i| format!("x{}", i)).collect()
}

fn reference_problem() -> Balas {
    let coefficients: Vec<i64> = vec![3, 5, 6, 9, 10, 10];
    let constraints: Vec<Vec<i64>> = vec![
        vec![-2, -5, 5],
        vec![6, -3, -1],
        vec![-3, 1, 4],
        vec![4, 3, -2],
        vec![1, -2, 2],
        vec![-2, 1, -1],
    ];
    let rhs: Vec<i64> = vec![2, -2, 3];
    Balas::new(&coefficients, &constraints, &rhs, &names(6))
}

fn check_feasible(balas: &Balas, coefficients: &[i64], constraints: &[Vec<i64>], rhs: &[i64]) {
    let n = coefficients.len();
    let m = rhs.len();
    assert_eq!(balas.solution.len(), n);
    let mut objective: i64 = 0;
    for v in 0..n {
        assert!(balas.solution[v] == 0 || balas.solution[v] == 1);
        objective += coefficients[v] * balas.solution[v] as i64;
    }
    assert_eq!(objective, balas.best);
    for c in 0..m {
        let lhs: i64 = (0..n).map(|v| constraints[v][c] * balas.solution[v] as i64).sum();
        assert!(lhs >= rhs[c], "constraint {} violated: {} < {}", c, lhs, rhs[c]);
    }
}

#[test]
fn reference_problem_parallel() {
    let mut balas = reference_problem();
    balas.solve(4);
    assert_eq!(balas.best, 11);
    let coefficients: Vec<i64> = vec![3, 5, 6, 9, 10, 10];
    let constraints: Vec<Vec<i64>> = vec![
        vec![-2, -5, 5],
        vec![6, -3, -1],
        vec![-3, 1, 4],
        vec![4, 3, -2],
        vec![1, -2, 2],
        vec![-2, 1, -1],
    ];
    let rhs: Vec<i64> = vec![2, -2, 3];
    assert!(balas.best < coefficients.iter().sum());
    check_feasible(&balas, &coefficients, &constraints, &rhs);
    assert!(balas.count > 0);
}

#[test]
fn reference_problem_recursive() {
    let mut balas = reference_problem();
    balas.solve_recursively();
    assert_eq!(balas.best, 11);
    assert_eq!(balas.recording.len(), 2);
}

#[test]
fn engines_agree_on_best() {
    let mut a = reference_problem();
    a.solve(2);
    let mut b = reference_problem();
    b.solve_recursively();
    assert_eq!(a.best, b.best);
}

#[test]
fn worker_count_invariance() {
    let mut expected: Option<i64> = None;
    for workers in [1usize, 2, 4] {
        let mut balas = reference_problem();
        balas.solve(workers);
        match expected {
            None => expected = Some(balas.best),
            Some(e) => assert_eq!(balas.best, e, "workers = {}", workers),
        }
        assert!(balas.count > 0);
    }
}

#[test]
fn trivial_infeasibility() {
    let mut balas = Balas::new(&vec![1], &vec![vec![1]], &vec![2], &names(1));
    balas.solve(1);
    assert_eq!(balas.best, i64::MAX);
    assert!(balas.solution.is_empty());
}

#[test]
fn trivial_feasibility_at_zero() {
    let mut balas = Balas::new(&vec![1, 1], &vec![vec![0], vec![0]], &vec![0], &names(2));
    balas.solve(1);
    assert_eq!(balas.best, 0);
    assert_eq!(balas.solution, vec![0, 0]);
}

#[test]
fn tight_bound() {
    let mut balas = Balas::new(
        &vec![1, 2, 4],
        &vec![vec![1], vec![1], vec![1]],
        &vec![1],
        &names(3),
    );
    balas.solve(1);
    assert_eq!(balas.best, 1);
    assert_eq!(balas.solution, vec![1, 0, 0]);
}

#[test]
fn single_variable_forced_to_one() {
    let mut balas = Balas::new(&vec![5], &vec![vec![1]], &vec![1], &names(1));
    balas.solve(1);
    assert_eq!(balas.best, 5);
    assert_eq!(balas.solution, vec![1]);
}

#[test]
fn zero_cost_variables_help_feasibility() {
    let mut balas = Balas::new(&vec![0, 1], &vec![vec![1], vec![0]], &vec![1], &names(2));
    balas.solve(1);
    assert_eq!(balas.best, 0);
    assert_eq!(balas.solution, vec![1, 0]);
    let mut again = Balas::new(&vec![0, 1], &vec![vec![1], vec![0]], &vec![1], &names(2));
    again.solve_recursively();
    assert_eq!(again.best, 0);
}

#[test]
fn nonpositive_rhs_all_zeros_optimal() {
    let mut balas = Balas::new(
        &vec![2, 3, 4],
        &vec![vec![1, 0], vec![0, 2], vec![3, 1]],
        &vec![0, -5],
        &names(3),
    );
    balas.solve(1);
    assert_eq!(balas.best, 0);
    assert_eq!(balas.solution, vec![0, 0, 0]);
    assert!(balas.count <= 16);
}

#[test]
fn heuristic_seed_keeps_best_and_prunes() {
    let mut unseeded = reference_problem();
    unseeded.solve(1);
    let unseeded_count = unseeded.count;

    let mut seeded = reference_problem();
    seeded.best = 12;
    seeded.solve(1);
    assert_eq!(seeded.best, 11);
    assert!(seeded.count <= unseeded_count);

    let mut exact = reference_problem();
    exact.best = 11;
    exact.solve(1);
    assert_eq!(exact.best, 11);
    assert!(exact.count < unseeded_count);

    let mut blocking = reference_problem();
    blocking.best = 5;
    blocking.solve(1);
    assert_eq!(blocking.best, 5);
    assert!(blocking.solution.is_empty());
}

#[test]
fn tighter_seed_never_costs_nodes() {
    let mut loose = reference_problem();
    loose.best = 30;
    loose.solve(1);
    let mut tight = reference_problem();
    tight.best = 12;
    tight.solve(1);
    assert!(tight.count <= loose.count);
}

#[test]
fn subtree_workers_cover_the_tree() {
    let balas = reference_problem();
    let shared = balas.make_shared_bound();
    let mut best = i64::MAX;
    let mut total: u64 = 0;
    for index in 0..4usize {
        let (b, count, _solution) = balas.solve_subtree(2, index, i64::MAX, &shared);
        if b < best {
            best = b;
        }
        total += count;
    }
    assert_eq!(best, 11);
    assert!(total > 0);
}

#[test]
fn make_cumulative_suffix_sums() {
    let constraints: Vec<Vec<i64>> = vec![
        vec![-2, -5, 5],
        vec![6, -3, -1],
        vec![-3, 1, 4],
        vec![4, 3, -2],
        vec![1, -2, 2],
        vec![-2, 1, -1],
    ];
    let cumulative = Balas::make_cumulative(&constraints);
    assert_eq!(
        cumulative,
        vec![
            vec![11, 5, 6],
            vec![5, 5, 6],
            vec![5, 4, 2],
            vec![1, 1, 2],
            vec![0, 1, 0],
        ]
    );
}

#[test]
fn reset_clears_results() {
    let mut balas = reference_problem();
    balas.solve(1);
    assert!(balas.best < i64::MAX);
    balas.reset();
    assert_eq!(balas.best, i64::MAX);
    assert!(balas.solution.is_empty());
    assert_eq!(balas.count, 0);
    balas.solve(1);
    assert_eq!(balas.best, 11);
}

#[test]
fn recording_tracks_visits() {
    let mut balas = reference_problem();
    assert!(balas.recording.is_empty());
    balas.record("0", NodeState::Active);
    balas.record("01", NodeState::Fathomed);
    assert_eq!(balas.recording.len(), 2);
    assert_eq!(balas.recording[0].node, "0");
    assert_eq!(balas.recording[1].node, "01");
}

#[test]
fn variable_names_are_kept() {
    let balas = reference_problem();
    assert_eq!(balas.variable_names().len(), 6);
    assert_eq!(balas.variable_names()[0], "x0");
    assert!(MAX_VARS >= 6);
}

#[test]
fn solve_twice_accumulates_count() {
    let mut balas = reference_problem();
    balas.solve(1);
    let first = balas.count;
    balas.solve(1);
    assert!(balas.count >= first);
    assert_eq!(balas.best, 11);
}
