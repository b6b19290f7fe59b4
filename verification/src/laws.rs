//! The general guarantees of the solver, stated and proved once over the
//! model: optimality, determinism across worker counts, agreement of the
//! two engines, and the boundary behaviors for infeasible and trivially
//! feasible problems.
use vstd::prelude::*;

use crate::model::{
    extends, feasible, is_assignment, lemma_objective_below_sentinel, lemma_objective_zero_tail,
    lemma_lhs_zero_tail, lemma_subtree_best_lb, lemma_subtree_best_witness, lhs_value,
    objective_value, optimum, satisfies, solve_best, ProblemView,
};

verus! {

/// Optimality: whatever `solve` or `solve_recursively` leaves in `best`
/// is at most the objective of every feasible assignment, whatever the
/// caller seeded `best` with.
pub proof fn lemma_solve_best_is_lower_bound(p: ProblemView, seed: i64, x: Seq<u8>)
    requires
        p.wf(),
        feasible(p, x),
    ensures
        solve_best(p, seed) <= objective_value(p, x),
{
    assert(extends(x, Seq::empty())) by {
        assert(x.subrange(0, 0) =~= Seq::<u8>::empty());
    }
    lemma_subtree_best_lb(p, Seq::empty(), x);
}

/// Determinism of the objective: the value `solve` leaves in `best` is a
/// function of the problem and the seed alone — `solve_best` never
/// mentions the worker count, so runs with different worker counts agree.
pub proof fn lemma_worker_count_invariance(p: ProblemView, seed: i64, b1: int, b2: int)
    requires
        b1 == solve_best(p, seed),
        b2 == solve_best(p, seed),
    ensures
        b1 == b2,
{
}

/// Engine agreement: the parallel engine and the single-threaded
/// recursive reference both leave `solve_best(problem, seed)` in `best`,
/// so on identical input their `best` values are identical.
pub proof fn lemma_engines_agree(p: ProblemView, seed: i64, parallel: int, recursive: int)
    requires
        parallel == solve_best(p, seed),
        recursive == solve_best(p, seed),
    ensures
        parallel == recursive,
{
}

/// Infeasibility: when every assignment violates some constraint, the
/// optimum is the positive-infinity sentinel, and an unseeded solve
/// returns it.
pub proof fn lemma_infeasible_optimum(p: ProblemView)
    requires
        p.wf(),
        forall|x: Seq<u8>| is_assignment(p, x) ==> !satisfies(p, x),
    ensures
        optimum(p) == i64::MAX as int,
        solve_best(p, i64::MAX) == i64::MAX as int,
{
    lemma_subtree_best_witness(p, Seq::empty());
    if optimum(p) != i64::MAX as int {
        let y = choose|y: Seq<u8>|
            {
                &&& is_assignment(p, y)
                &&& satisfies(p, y)
                &&& extends(y, Seq::empty())
                &&& objective_value(p, y) == optimum(p)
            };
        assert(!satisfies(p, y));
        assert(false);
    }
}

/// Trivial feasibility at zero: with every right-hand side nonpositive
/// and a nonnegative constraint matrix, the all-zeros assignment is
/// feasible and optimal, so an unseeded solve returns zero.
pub proof fn lemma_nonpositive_rhs_optimum(p: ProblemView)
    requires
        p.wf(),
        forall|c: int| 0 <= c < p.m() ==> #[trigger] p.rhs[c] <= 0,
    ensures
        optimum(p) == 0,
        solve_best(p, i64::MAX) == 0,
{
    let z = Seq::new(p.n() as nat, |i: int| 0u8);
    assert forall|c: int| 0 <= c < p.m() implies lhs_value(p, z, c) >= p.rhs[c] by {
        lemma_lhs_zero_tail(p, z, c, 0);
    }
    lemma_objective_zero_tail(p, z, 0);
    assert(feasible(p, z) && objective_value(p, z) == 0);
    assert(extends(z, Seq::empty())) by {
        assert(z.subrange(0, 0) =~= Seq::<u8>::empty());
    }
    lemma_subtree_best_lb(p, Seq::empty(), z);
    lemma_subtree_best_witness(p, Seq::empty());
    if optimum(p) != i64::MAX as int {
        let y = choose|y: Seq<u8>|
            {
                &&& is_assignment(p, y)
                &&& satisfies(p, y)
                &&& extends(y, Seq::empty())
                &&& objective_value(p, y) == optimum(p)
            };
        lemma_objective_below_sentinel(p, y);
    }
}

} // verus!
