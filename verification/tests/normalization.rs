use balas::lp_errors::LpErrors;
use balas::normalize::{
    create_min_objective, normalize_for_balas, ConstraintKind, RawConstraint, RawProblem,
};
use balas::Balas;

fn names(n: usize) -> Vec<String> {
    (0..n).map(|i| format!("x{}", i)).collect()
}

/// maximize 2 x0 - 3 x1 + x2
/// subject to x0 + x1 <= 1, x0 - x2 = 0, x1 + x2 >= 0
fn mixed_problem() -> RawProblem {
    RawProblem {
        maximize: true,
        objective: vec![2, -3, 1],
        constraints: vec![
            RawConstraint {
                coefficients: vec![1, 1, 0],
                kind: ConstraintKind::LessEq,
                rhs: 1,
            },
            RawConstraint {
                coefficients: vec![1, 0, -1],
                kind: ConstraintKind::Equal,
                rhs: 0,
            },
            RawConstraint {
                coefficients: vec![0, 1, 1],
                kind: ConstraintKind::GreaterEq,
                rhs: 0,
            },
        ],
    }
}

#[test]
fn min_objective_negates_for_maximize() {
    let raw = mixed_problem();
    let minobj = create_min_objective(&raw);
    assert_eq!(minobj, vec![-2, 3, -1]);
}

#[test]
fn normalize_shape_and_flips() {
    let raw = mixed_problem();
    let (normalized, _, _, _) = normalize_for_balas(&raw);
    // minimized coefficients are [-2, 3, -1]: variables 0 and 2 flip
    assert_eq!(normalized.flipped, vec![true, false, true]);
    assert_eq!(normalized.coefficients, vec![2, 3, 1]);
    assert_eq!(normalized.shift, -3);
    // three main rows plus one negated copy of the equality row
    assert_eq!(normalized.rhs.len(), 4);
    // transposed matrix: one row per variable, one column per constraint
    assert_eq!(normalized.constraints.len(), 3);
    for row in &normalized.constraints {
        assert_eq!(row.len(), 4);
    }
}

#[test]
fn normalize_solve_round_trip() {
    let raw = mixed_problem();
    let (normalized, _, _, _) = normalize_for_balas(&raw);
    let mut balas = Balas::new(
        &normalized.coefficients,
        &normalized.constraints,
        &normalized.rhs,
        &names(3),
    );
    balas.solve(1);
    assert_eq!(balas.best, 0);
    // map the solution back to the raw variables
    let raw_solution: Vec<u8> = balas
        .solution
        .iter()
        .zip(normalized.flipped.iter())
        .map(|(&y, &fl)| if fl { 1 - y } else { y })
        .collect();
    // the raw image must satisfy the raw constraints
    let x: Vec<i64> = raw_solution.iter().map(|&b| b as i64).collect();
    assert!(x[0] + x[1] <= 1);
    assert_eq!(x[0] - x[2], 0);
    assert!(x[1] + x[2] >= 0);
    // normalized best + shift == -(raw objective) for a maximization
    let raw_value = 2 * x[0] - 3 * x[1] + x[2];
    assert_eq!(balas.best + normalized.shift, -raw_value);
    // and the raw optimum of this instance is 3
    assert_eq!(raw_value, 3);
}

#[test]
fn normalize_identity_on_standard_form() {
    let raw = RawProblem {
        maximize: false,
        objective: vec![1, 2],
        constraints: vec![RawConstraint {
            coefficients: vec![1, 1],
            kind: ConstraintKind::GreaterEq,
            rhs: 1,
        }],
    };
    let (normalized, _, _, _) = normalize_for_balas(&raw);
    assert_eq!(normalized.coefficients, vec![1, 2]);
    assert_eq!(normalized.flipped, vec![false, false]);
    assert_eq!(normalized.shift, 0);
    assert_eq!(normalized.rhs, vec![1]);
    assert_eq!(normalized.constraints, vec![vec![1], vec![1]]);
}

#[test]
fn error_messages_name_their_cause() {
    assert_eq!(LpErrors::VarNotBinary.message(), "All variables must be Binary");
    assert_eq!(LpErrors::NoVars.message(), "No variables found");
    assert_eq!(LpErrors::NoObjective.message(), "Expected objective");
    assert_eq!(
        LpErrors::UnexpectedConstraintType.message(),
        "Can only handle Standard constraints"
    );
    assert_eq!(
        LpErrors::FileReadError("missing file".to_string()).message(),
        "missing file"
    );
    assert_eq!(LpErrors::LPParseError("bad token".to_string()).message(), "bad token");
}
