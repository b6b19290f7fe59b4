//! Single-threaded reference solver: the same branch-and-bound search as
//! the iterative engine, expressed with call-stack recursion.  It exists
//! for testing; both engines are proved to leave the same `best` value.
use vstd::prelude::*;

use crate::model::{
    feasible, is_assignment, is_bits, lemma_lhs_upto_bounds, lemma_lhs_upto_congruence,
    lemma_objective_below_sentinel, lemma_objective_upto_bounds, lemma_objective_upto_congruence,
    lemma_objective_upto_monotone, lemma_objective_zero_tail, lemma_pow2_pos,
    lemma_subtree_best_lb, lemma_subtree_best_witness, lhs_upto, lhs_value, objective_upto,
    objective_value, optimum, pow2, satisfies, solve_best, suffix_pos, ProblemView,
};
use crate::worker::{all_nonneg_values, copy_bits, tail_can_satisfy};
use crate::{copy_values, Balas, NodeState};

verus! {

/// The assignments decided by visiting the node at depth `index` with
/// branch value `branch` under the path `vars`.
pub open spec fn node_scope(
    p: ProblemView,
    x: Seq<u8>,
    vars: Seq<u8>,
    index: int,
    branch: u8,
) -> bool {
    &&& is_assignment(p, x)
    &&& satisfies(p, x)
    &&& x.subrange(0, index) == vars.subrange(0, index)
    &&& x[index] == branch
}

impl Balas {
    /// Single-threaded reference implementation mirroring the iterative
    /// state machine with recursion.  Leaves in `best` exactly the
    /// optimum of the problem, unless `best` was seeded with a value at
    /// least as small, in which case it is unchanged.
    pub fn solve_recursively(&mut self)
        requires
            old(self).wf(),
            old(self).count as int + 2 * pow2(old(self).problem().n() as nat) <= u64::MAX as int,
        ensures
            final(self).wf(),
            final(self).problem() == old(self).problem(),
            final(self).vars == old(self).vars,
            final(self).best as int == solve_best(old(self).problem(), old(self).best),
            final(self).best < old(self).best ==> feasible(
                old(self).problem(),
                final(self).solution@,
            ) && objective_value(old(self).problem(), final(self).solution@) == final(self).best,
            final(self).best == old(self).best ==> final(self).solution == old(self).solution,
            old(self).count + 2 <= final(self).count,
            final(self).count as int <= old(self).count as int + 2 * pow2(
                old(self).problem().n() as nat,
            ) - 2,
            final(self).recording@.len() == old(self).recording@.len() + 2,
            final(self).recording@.subrange(0, old(self).recording@.len() as int) == old(
                self,
            ).recording@,
            final(self).recording@[old(self).recording@.len() as int].node@.len() == 0,
            final(self).recording@[old(self).recording@.len() as int].state is Active,
            final(self).recording@[old(self).recording@.len() as int + 1].node@.len() == 0,
            final(self).recording@[old(self).recording@.len() as int + 1].state is Visited,
    {
        let ghost p = self.problem();
        let ghost n = p.n();
        let ghost seed = self.best;
        let m = self.fixed.rhs.len();
        let num_vars = self.fixed.num_vars;

        let mut accumulator: Vec<i64> = Vec::new();
        for c in 0..m
            invariant
                self.fixed.wf(),
                p == self.fixed.pv(),
                m == p.m(),
                accumulator@.len() == c,
                forall|cc: int| 0 <= cc < c ==> accumulator@[cc] == -p.rhs[cc],
        {
            accumulator.push(-self.fixed.rhs[c]);
        }
        let mut vars: Vec<u8> = Vec::new();
        for v in 0..num_vars
            invariant
                vars@.len() == v,
                forall|vv: int| 0 <= vv < v ==> vars@[vv] == 0,
        {
            vars.push(0);
        }
        let ghost recording_before = self.recording@;
        self.record("", NodeState::Active);
        self.record("", NodeState::Visited);
        proof {
            reveal_strlit("");
            assert(self.recording@.subrange(0, recording_before.len() as int)
                =~= recording_before);
            assert(self.recording@[recording_before.len() as int]
                == self.recording@.subrange(0, recording_before.len() as int + 1)[recording_before.len() as int]);
            lemma_pow2_pos(n as nat);
        }
        self.node(0, 0, &accumulator, 0, &vars);
        self.node(1, 0, &accumulator, 0, &vars);
        proof {
            lemma_subtree_best_witness(p, Seq::empty());
            let ghost opt = optimum(p);
            if opt != i64::MAX as int {
                let y = choose|y: Seq<u8>|
                    {
                        &&& is_assignment(p, y)
                        &&& satisfies(p, y)
                        &&& crate::model::extends(y, Seq::empty())
                        &&& objective_value(p, y) == opt
                    };
                assert(y.subrange(0, 0) =~= vars@.subrange(0, 0));
                if y[0] == 0 {
                    assert(node_scope(p, y, vars@, 0, 0u8));
                } else {
                    assert(node_scope(p, y, vars@, 0, 1u8));
                }
                assert(self.best <= opt);
                if self.best as int != seed {
                    assert(crate::model::extends(self.solution@, Seq::empty())) by {
                        assert(self.solution@.subrange(0, 0) =~= Seq::<u8>::empty());
                    }
                    lemma_subtree_best_lb(p, Seq::empty(), self.solution@);
                    assert(self.best == opt);
                }
            } else {
                if self.best as int != seed {
                    assert(crate::model::extends(self.solution@, Seq::empty())) by {
                        assert(self.solution@.subrange(0, 0) =~= Seq::<u8>::empty());
                    }
                    lemma_subtree_best_lb(p, Seq::empty(), self.solution@);
                    lemma_objective_below_sentinel(p, self.solution@);
                    assert(false);
                }
            }
        }
    }

    /// Visits one node of the decision tree: applies `branch` at depth
    /// `index`, prunes against the incumbent, fathoms feasible nodes, and
    /// recurses into both children while a feasible descendant may exist.
    /// The incumbent only tightens, every change is witnessed by
    /// `solution`, and afterwards no feasible assignment of this node's
    /// subtree beats it.
    fn node(&mut self, branch: u8, index: usize, accumulator: &Vec<i64>, objective: i64, vars: &Vec<
        u8,
    >)
        requires
            old(self).wf(),
            branch == 0 || branch == 1,
            0 <= index < old(self).problem().n(),
            vars@.len() == old(self).problem().n(),
            is_bits(vars@),
            forall|v: int| index <= v < old(self).problem().n() ==> vars@[v] == 0,
            accumulator@.len() == old(self).problem().m(),
            forall|c: int|
                0 <= c < old(self).problem().m() ==> accumulator@[c] == lhs_upto(
                    old(self).problem(),
                    vars@,
                    c,
                    index as int,
                ) - old(self).problem().rhs[c],
            objective == objective_upto(old(self).problem(), vars@, index as int),
            old(self).count as int + pow2((old(self).problem().n() - index) as nat)
                <= u64::MAX as int,
        ensures
            final(self).wf(),
            final(self).problem() == old(self).problem(),
            final(self).vars == old(self).vars,
            final(self).recording == old(self).recording,
            final(self).best <= old(self).best,
            final(self).best == old(self).best || (feasible(
                old(self).problem(),
                final(self).solution@,
            ) && objective_value(old(self).problem(), final(self).solution@) == final(self).best),
            final(self).best == old(self).best ==> final(self).solution == old(self).solution,
            final(self).best < old(self).best ==> node_scope(
                old(self).problem(),
                final(self).solution@,
                vars@,
                index as int,
                branch,
            ),
            forall|x: Seq<u8>| #[trigger]
                node_scope(old(self).problem(), x, vars@, index as int, branch)
                    ==> final(self).best <= objective_value(old(self).problem(), x),
            old(self).count + 1 <= final(self).count,
            final(self).count as int <= old(self).count as int + pow2(
                (old(self).problem().n() - index) as nat,
            ) - 1,
        decreases old(self).problem().n() - index,
{
        let ghost p = self.problem();
        let ghost n = p.n();
        let ghost d = index as int;
        let m = self.fixed.rhs.len();
        proof {
            lemma_pow2_pos((n - d) as nat);
            assert(pow2((n - d) as nat) == 2 * pow2((n - d - 1) as nat));
            lemma_pow2_pos((n - d - 1) as nat);
        }
        self.count = self.count + 1;

        let mut objective = objective;
        let mut vars_l = copy_bits(vars);
        let mut acc_l = copy_values(accumulator);

        if branch == 1 {
            proof {
                lemma_objective_upto_bounds(p, vars_l@, d);
            }
            vars_l.set(index, 1);
            proof {
                lemma_objective_upto_congruence(p, vars@, vars_l@, d);
                assert(objective_upto(p, vars_l@, d + 1) == objective_upto(p, vars_l@, d)
                    + p.coefficients[d] * (vars_l@[d] as int));
                assert(p.constraints[d] =~= self.fixed.constraints@[d as int]@);
            }
            objective = objective + self.fixed.coefficients[index];
            proof {
                assert(objective == objective_upto(p, vars_l@, d + 1));
            }
            if objective >= self.best {
                proof {
                    assert forall|x: Seq<u8>| #[trigger]
                        node_scope(p, x, vars@, d, branch) implies self.best <= objective_value(
                        p,
                        x,
                    ) by {
                        assert forall|v: int| 0 <= v < d + 1 implies x[v] == vars_l@[v] by {
                            if v < d {
                                assert(x.subrange(0, d)[v] == vars@.subrange(0, d)[v]);
                            }
                        }
                        lemma_objective_upto_monotone(p, x, d + 1, n);
                        lemma_objective_upto_congruence(p, x, vars_l@, d + 1);
                    }
                }
                return ;
            }
            let ghost acc_pre = acc_l@;
            for c in 0..m
                invariant
                    self.fixed.wf(),
                    p == self.fixed.pv(),
                    m == p.m(),
                    n == p.n(),
                    0 <= d < n,
                    d == index as int,
                    is_bits(vars_l@),
                    vars_l@.len() == n,
                    vars_l@[d] == 1,
                    forall|v: int| 0 <= v < d ==> vars_l@[v] == vars@[v],
                    p.constraints[d] == self.fixed.constraints@[d as int]@,
                    self.fixed.constraints@.len() == n,
                    acc_l@.len() == m,
                    forall|cc: int|
                        c <= cc < m ==> acc_l@[cc] == lhs_upto(p, vars@, cc, d) - p.rhs[cc],
                    forall|cc: int|
                        0 <= cc < c ==> acc_l@[cc] == lhs_upto(p, vars_l@, cc, d + 1) - p.rhs[cc],
            {
                proof {
                    lemma_lhs_upto_congruence(p, vars@, vars_l@, c as int, d);
                    lemma_lhs_upto_bounds(p, vars_l@, c as int, d);
                    assert(lhs_upto(p, vars_l@, c as int, d + 1) == lhs_upto(
                        p,
                        vars_l@,
                        c as int,
                        d,
                    ) + p.constraints[d][c as int] * (vars_l@[d] as int));
                }
                let updated = acc_l[c] + self.fixed.constraints[index][c];
                acc_l.set(c, updated);
            }
            if all_nonneg_values(&acc_l) {
                proof {
                    crate::worker::lemma_acc_feasible(p, vars_l@, acc_l@, d + 1);
                    lemma_objective_zero_tail(p, vars_l@, d + 1);
                }
                self.best = objective;
                self.solution = copy_bits(&vars_l);
                proof {
                    assert(vars_l@.subrange(0, d) =~= vars@.subrange(0, d));
                    assert(node_scope(p, self.solution@, vars@, d, branch));
                    assert forall|x: Seq<u8>| #[trigger]
                        node_scope(p, x, vars@, d, branch) implies self.best <= objective_value(
                        p,
                        x,
                    ) by {
                        assert forall|v: int| 0 <= v < d + 1 implies x[v] == vars_l@[v] by {
                            if v < d {
                                assert(x.subrange(0, d)[v] == vars@.subrange(0, d)[v]);
                            }
                        }
                        lemma_objective_upto_monotone(p, x, d + 1, n);
                        lemma_objective_upto_congruence(p, x, vars_l@, d + 1);
                    }
                }
                return ;
            }
        } else {
            proof {
                assert(objective_upto(p, vars_l@, d + 1) == objective_upto(p, vars_l@, d)
                    + p.coefficients[d] * (vars_l@[d] as int));
                assert forall|c: int| 0 <= c < m implies lhs_upto(p, vars_l@, c, d + 1) == lhs_upto(
                    p,
                    vars_l@,
                    c,
                    d,
                ) by {
                    assert(lhs_upto(p, vars_l@, c, d + 1) == lhs_upto(p, vars_l@, c, d)
                        + p.constraints[d][c] * (vars_l@[d] as int));
                }
            }
            if all_nonneg_values(&acc_l) {
                proof {
                    crate::worker::lemma_acc_feasible(p, vars_l@, acc_l@, d);
                    lemma_objective_zero_tail(p, vars_l@, d);
                    lemma_objective_upto_bounds(p, vars_l@, d);
                }
                if objective < self.best {
                    self.best = objective;
                    self.solution = copy_bits(&vars_l);
                    proof {
                        assert(vars_l@.subrange(0, d) =~= vars@.subrange(0, d));
                        assert(node_scope(p, self.solution@, vars@, d, branch));
                    }
                }
                proof {
                    assert(self.best <= objective);
                    assert forall|x: Seq<u8>| #[trigger]
                        node_scope(p, x, vars@, d, branch) implies self.best <= objective_value(
                        p,
                        x,
                    ) by {
                        assert forall|v: int| 0 <= v < d implies x[v] == vars_l@[v] by {
                            assert(x.subrange(0, d)[v] == vars@.subrange(0, d)[v]);
                        }
                        lemma_objective_upto_monotone(p, x, d, n);
                        lemma_objective_upto_congruence(p, x, vars_l@, d);
                    }
                }
                return ;
            }
        }

        let ghost best_mid = self.best;
        if index + 1 < self.fixed.num_vars {
            proof {
                assert forall|c: int| 0 <= c < p.m() implies -0x100_0000_0000i64 <= acc_l@[c]
                    && acc_l@[c] <= 0x100_0000_0000i64 by {
                    lemma_lhs_upto_bounds(p, vars_l@, c, d + 1);
                }
            }
            if tail_can_satisfy(&acc_l, &self.fixed, index) {
                proof {
                    assert(pow2((n - d) as nat) == 2 * pow2((n - d - 1) as nat));
                }
                self.node(0, index + 1, &acc_l, objective, &vars_l);
                let ghost best_after_zero = self.best;
                self.node(1, index + 1, &acc_l, objective, &vars_l);
                proof {
                    if self.best < best_mid {
                        assert forall|v: int| 0 <= v < d implies self.solution@[v] == vars@[v] by {
                            assert(self.solution@.subrange(0, d + 1)[v] == vars_l@.subrange(
                                0,
                                d + 1,
                            )[v]);
                        }
                        assert(self.solution@.subrange(0, d) =~= vars@.subrange(0, d));
                        assert(self.solution@[d] == self.solution@.subrange(0, d + 1)[d]);
                        assert(node_scope(p, self.solution@, vars@, d, branch));
                    }
                    assert forall|x: Seq<u8>| #[trigger]
                        node_scope(p, x, vars@, d, branch) implies self.best <= objective_value(
                        p,
                        x,
                    ) by {
                        assert forall|v: int| 0 <= v < d + 1 implies x[v] == vars_l@[v] by {
                            if v < d {
                                assert(x.subrange(0, d)[v] == vars@.subrange(0, d)[v]);
                            }
                        }
                        assert(x.subrange(0, d + 1) =~= vars_l@.subrange(0, d + 1));
                        assert(node_scope(p, x, vars_l@, d + 1, x[d + 1]));
                    }
                }
            } else {
                proof {
                    let c0 = choose|c: int|
                        0 <= c < p.m() && !(acc_l@[c] + suffix_pos(p, c, d + 1) >= 0);
                    assert forall|x: Seq<u8>| #[trigger]
                        node_scope(p, x, vars@, d, branch) implies self.best <= objective_value(
                        p,
                        x,
                    ) by {
                        assert forall|v: int| 0 <= v < d + 1 implies x[v] == vars_l@[v] by {
                            if v < d {
                                assert(x.subrange(0, d)[v] == vars@.subrange(0, d)[v]);
                            }
                        }
                        crate::model::lemma_lhs_suffix_bound(p, x, c0, d + 1);
                        lemma_lhs_upto_congruence(p, x, vars_l@, c0, d + 1);
                        assert(false);
                    }
                }
            }
        } else {
            proof {
                let c1 = choose|c: int| 0 <= c < p.m() && acc_l@[c] < 0;
                assert forall|x: Seq<u8>| #[trigger]
                    node_scope(p, x, vars@, d, branch) implies self.best <= objective_value(
                    p,
                    x,
                ) by {
                    assert forall|v: int| 0 <= v < d + 1 implies x[v] == vars_l@[v] by {
                        if v < d {
                            assert(x.subrange(0, d)[v] == vars@.subrange(0, d)[v]);
                        }
                    }
                    assert(x =~= vars_l@);
                    assert(lhs_value(p, vars_l@, c1) == lhs_upto(p, vars_l@, c1, d + 1));
                    assert(false);
                }
            }
        }
    }
}

} // verus!
