//! Balas' additive branch-and-bound solver for binary integer programs in
//! minimization standard form.  The parallel engine enumerates the binary
//! decision tree implicitly, pruning by objective bound, by fathoming
//! feasible nodes, and by cumulative infeasibility of a subtree's tail.
use vstd::prelude::*;

pub mod laws;
pub mod lp_errors;
pub mod model;
pub mod normalize;
mod recursive_solver;
pub mod shared;
mod worker;

use crate::model::{
    col_suffix_pos, lemma_col_suffix_pos_bounds, ProblemView, MAX_ENTRY, MAX_RHS, MAX_VARS,
};

verus! {

/// Visitation states recorded by the reference recursive solver for
/// debugging and visualization.
pub enum NodeState {
    Default,
    Active,
    Visited,
    Fathomed,
    Infeasible,
    Suboptimal,
    ImpossibleChildren,
    Skipped,
}

/// One entry of the recording buffer: a node label and the state the
/// traversal left it in.
pub struct Record {
    pub node: String,
    pub state: NodeState,
}

/// The unchanging problem data shared read-only by all workers.
pub struct Fixed {
    pub(crate) num_vars: usize,
    pub(crate) coefficients: Vec<i64>,
    pub(crate) constraints: Vec<Vec<i64>>,
    pub(crate) rhs: Vec<i64>,
    pub(crate) cumulative: Vec<Vec<i64>>,
}

impl Fixed {
    /// The mathematical problem this data stores.
    pub open(crate) spec fn pv(&self) -> ProblemView {
        ProblemView {
            coefficients: self.coefficients@,
            constraints: self.constraints.deep_view(),
            rhs: self.rhs@,
        }
    }

    /// The stored data is a well-formed problem and `cumulative` holds
    /// exactly the suffix sums of positive contributions: row `v` bounds
    /// what variables deeper than `v` can still add to each constraint.
    pub open(crate) spec fn wf(&self) -> bool {
        &&& self.pv().wf()
        &&& self.num_vars == self.pv().n()
        &&& self.cumulative.deep_view().len() == self.pv().n() - 1
        &&& forall|v: int|
            0 <= v < self.pv().n() - 1 ==> #[trigger] self.cumulative.deep_view()[v].len()
                == self.pv().m()
        &&& forall|v: int, c: int|
            0 <= v < self.pv().n() - 1 && 0 <= c < self.pv().m()
                ==> self.cumulative.deep_view()[v][c] == model::suffix_pos(self.pv(), c, v + 1)
    }
}

/// Solver handle: the immutable problem plus the mutable result record
/// (`best`, `solution`, `count`).  `best` may be seeded with a heuristic
/// upper bound before solving; `i64::MAX` stands for "no solution".
pub struct Balas {
    pub best: i64,
    pub solution: Vec<u8>,
    pub count: u64,
    pub vars: Vec<String>,
    pub recording: Vec<Record>,
    pub fixed: Fixed,
}

impl Balas {
    /// The mathematical problem this handle solves.
    pub closed spec fn problem(&self) -> ProblemView {
        self.fixed.pv()
    }

    /// Construction-time invariant: the problem is well-formed and the
    /// cumulative bounds match it.
    pub closed spec fn wf(&self) -> bool {
        self.fixed.wf()
    }

    /// Variable names, kept for reporting only.
    pub fn variable_names(&self) -> &Vec<String> {
        &self.vars
    }

    /// The objective coefficients of the stored problem.
    pub fn coefficients(&self) -> (r: &Vec<i64>)
        ensures
            r@ == self.problem().coefficients,
    {
        &self.fixed.coefficients
    }

    /// The transposed constraint matrix of the stored problem.
    pub fn constraints(&self) -> (r: &Vec<Vec<i64>>)
        ensures
            r.deep_view() == self.problem().constraints,
    {
        &self.fixed.constraints
    }

    /// The right-hand sides of the stored problem.
    pub fn rhs_values(&self) -> (r: &Vec<i64>)
        ensures
            r@ == self.problem().rhs,
    {
        &self.fixed.rhs
    }

    /// Builds a solver handle from objective coefficients, the transposed
    /// constraint matrix, the right-hand sides and the variable names,
    /// precomputing the cumulative pruning bounds.
    pub fn new(coeff: &Vec<i64>, constraints: &Vec<Vec<i64>>, b: &Vec<i64>, vars: &Vec<String>) -> (r:
        Balas)
        requires
            1 <= coeff@.len() <= MAX_VARS,
            constraints@.len() == coeff@.len(),
            forall|v: int|
                0 <= v < constraints@.len() ==> #[trigger] constraints@[v]@.len() == b@.len(),
            forall|v: int| 0 <= v < coeff@.len() ==> 0 <= #[trigger] coeff@[v] <= MAX_ENTRY,
            forall|v: int, c: int|
                0 <= v < constraints@.len() && 0 <= c < b@.len() ==> -MAX_ENTRY
                    <= #[trigger] constraints@[v]@[c] <= MAX_ENTRY,
            forall|c: int| 0 <= c < b@.len() ==> -MAX_RHS <= #[trigger] b@[c] <= MAX_RHS,
        ensures
            r.wf(),
            r.problem() == (ProblemView {
                coefficients: coeff@,
                constraints: constraints.deep_view(),
                rhs: b@,
            }),
            r.best == i64::MAX,
            r.solution@.len() == 0,
            r.count == 0,
            r.recording@.len() == 0,
            r.vars@ == vars@,
    {
        let cumulative = Self::make_cumulative(constraints);
        let fixed = Fixed {
            num_vars: coeff.len(),
            coefficients: copy_values(coeff),
            constraints: copy_matrix(constraints),
            rhs: copy_values(b),
            cumulative,
        };
        let r = Balas {
            best: i64::MAX,
            solution: Vec::new(),
            count: 0,
            vars: copy_names(vars),
            recording: Vec::new(),
            fixed,
        };
        proof {
            assert(r.fixed.pv().constraints =~= constraints.deep_view());
            assert(r.fixed.pv() =~= (ProblemView {
                coefficients: coeff@,
                constraints: constraints.deep_view(),
                rhs: b@,
            }));
        }
        r
    }

    /// Clears `best`, `solution`, and `count` to their initial values so
    /// the handle can be solved again, optionally reseeded.
    pub fn reset(&mut self)
        ensures
            final(self).best == i64::MAX,
            final(self).solution@.len() == 0,
            final(self).count == 0,
            final(self).wf() == old(self).wf(),
            final(self).problem() == old(self).problem(),
            final(self).recording == old(self).recording,
            final(self).vars == old(self).vars,
    {
        self.best = i64::MAX;
        self.solution = Vec::new();
        self.count = 0;
    }

    /// Appends one visitation record to the recording buffer: the given
    /// label and state, after everything recorded before.
    pub fn record(&mut self, label: &str, state: NodeState)
        ensures
            final(self).recording@.len() == old(self).recording@.len() + 1,
            final(self).recording@.subrange(0, old(self).recording@.len() as int) == old(
                self,
            ).recording@,
            final(self).recording@.last().node@ == label@,
            final(self).recording@.last().state == state,
            final(self).best == old(self).best,
            final(self).solution == old(self).solution,
            final(self).count == old(self).count,
            final(self).wf() == old(self).wf(),
            final(self).problem() == old(self).problem(),
            final(self).vars == old(self).vars,
    {
        broadcast use vstd::string::to_string_from_display_ensures_for_str;

        let entry = Record { node: label.to_string(), state };
        let ghost before = self.recording@;
        self.recording.push(entry);
        proof {
            assert(self.recording@.subrange(0, before.len() as int) =~= before);
        }
    }

    /// Runs the branch-and-bound search over the whole tree.  The worker
    /// count is rounded down to the largest power of two `2^k` (and
    /// capped so the prefix depth stays inside the tree); the decision
    /// tree is partitioned at depth `k` into `2^k` disjoint subtrees
    /// whose searches publish to one incumbent cell, and the results are
    /// reduced to the best feasible solution: after each subtree the
    /// reduction adopts the cell's incumbent and threads the tightened
    /// bound into the next worker's seed.  Callers that want the
    /// subtrees searched on separate OS threads run the same partition
    /// through `solve_subtree` with a cell from `make_shared_bound`; the
    /// reduction below does not depend on the order or interleaving of
    /// the subtree searches.  On return `best` is exactly the optimum of
    /// the problem, unless `best` was seeded with a value at least as
    /// small, in which case it is unchanged; a strictly improved `best`
    /// is witnessed by `solution`, and `count` accumulates the nodes
    /// visited.
    pub fn solve(&mut self, num_threads: usize)
        requires
            old(self).wf(),
            num_threads >= 1,
        ensures
            final(self).wf(),
            final(self).problem() == old(self).problem(),
            final(self).vars == old(self).vars,
            final(self).recording == old(self).recording,
            final(self).best as int == model::solve_best(old(self).problem(), old(self).best),
            final(self).best < old(self).best ==> model::feasible(
                old(self).problem(),
                final(self).solution@,
            ) && model::objective_value(old(self).problem(), final(self).solution@)
                == final(self).best,
            final(self).best == old(self).best ==> final(self).solution == old(self).solution,
            final(self).count >= old(self).count,
            old(self).count < u64::MAX ==> final(self).count > old(self).count,
    {
        let ghost p = self.fixed.pv();
        let ghost n = p.n();
        let seed = self.best;

        let mut start_k: usize = 0;
        let mut w: usize = 1;
        while w <= num_threads / 2 && start_k + 1 < self.fixed.num_vars
            invariant
                self.fixed.wf(),
                p == self.fixed.pv(),
                n == p.n(),
                w == model::pow2(start_k as nat),
                1 <= w <= num_threads,
                start_k < n,
            decreases num_threads - w,
        {
            w = w * 2;
            start_k = start_k + 1;
        }
        let ghost k = start_k as int;

        let mut best_w: i64 = i64::MAX;
        let mut sol_w: Vec<u8> = Vec::new();
        let mut total: u64 = 0;
        let ghost cap = 2 * model::pow2((n - k) as nat);
        proof {
            model::lemma_pow2_pos((n - k) as nat);
            model::lemma_pow2_adds(start_k as nat, (n - k) as nat);
            model::lemma_pow2_increases(n as nat, 60);
            model::lemma_pow2_cap();
            assert(w * cap == 2 * model::pow2(n as nat)) by (nonlinear_arith)
                requires
                    w == model::pow2(start_k as nat),
                    cap == 2 * model::pow2((n - k) as nat),
                    k == start_k as int,
                    0 <= k < n,
                    model::pow2(n as nat) == model::pow2(start_k as nat) * model::pow2(
                        (n - k) as nat,
                    ),
            ;
        }
        let shared_bound = crate::shared::SharedBound::new(Ghost(p));
        let mut idx: usize = w;
        proof {
            assert forall|x: Seq<u8>|
                model::is_assignment(p, x) && model::satisfies(p, x) && idx as int
                    <= #[trigger] model::prefix_index(x, k) implies best_w <= model::objective_value(
                p,
                x,
            ) || seed <= model::objective_value(p, x) by {
                model::lemma_prefix_index_bounds(x, k);
                assert(false);
            }
        }
        while idx > 0
            invariant
                self.fixed.wf(),
                p == self.fixed.pv(),
                shared_bound.problem() == p,
                n == p.n(),
                k == start_k as int,
                0 <= k < n,
                w == model::pow2(start_k as nat),
                cap == 2 * model::pow2((n - k) as nat),
                cap >= 2,
                w * cap == 2 * model::pow2(n as nat),
                2 * model::pow2(n as nat) <= 2 * model::pow2(60),
                model::pow2(60) == 0x1000_0000_0000_0000,
                0 <= idx <= w,
                best_w == i64::MAX || (model::feasible(p, sol_w@) && model::objective_value(
                    p,
                    sol_w@,
                ) == best_w),
                forall|x: Seq<u8>|
                    model::is_assignment(p, x) && model::satisfies(p, x) && idx as int
                        <= #[trigger] model::prefix_index(x, k) ==> best_w
                        <= model::objective_value(p, x) || seed <= model::objective_value(p, x),
                total as int <= (w - idx) * cap,
                total as int >= w - idx,
            decreases idx,
        {
            idx = idx - 1;
            let round_seed = if best_w < seed {
                best_w
            } else {
                seed
            };
            let r = crate::worker::solve_subtree(
                start_k,
                idx,
                &self.fixed,
                round_seed,
                &shared_bound,
            );
            proof {
                assert(crate::worker::worker_post(p, k, idx as int, round_seed, r));
                assert((w - idx) * cap <= w * cap) by (nonlinear_arith)
                    requires
                        0 <= idx <= w,
                        cap >= 0,
                ;
                assert((w - idx) * cap == (w - (idx + 1)) * cap + cap) by (nonlinear_arith);
            }
            total = total + r.1;
            let ghost best_prior = best_w;
            if r.0 < best_w {
                best_w = r.0;
                sol_w = r.2;
            }
            match shared_bound.read_if_better(best_w) {
                Some(found) => {
                    best_w = found.0;
                    sol_w = found.1;
                },
                None => {},
            }
            proof {
                assert(best_w <= best_prior && best_w <= r.0);
                assert forall|x: Seq<u8>|
                    model::is_assignment(p, x) && model::satisfies(p, x) && idx as int
                        <= #[trigger] model::prefix_index(x, k) implies best_w
                    <= model::objective_value(p, x) || seed <= model::objective_value(p, x) by {
                    if model::prefix_index(x, k) == idx as int {
                        model::lemma_prefix_bits_of_index(x, k);
                        assert(crate::worker::in_scope(p, x, k, idx as int));
                    }
                }
            }
        }

        proof {
            model::lemma_subtree_best_witness(p, Seq::empty());
            let ghost opt = model::optimum(p);
            if opt != i64::MAX as int {
                let y = choose|y: Seq<u8>|
                    {
                        &&& model::is_assignment(p, y)
                        &&& model::satisfies(p, y)
                        &&& model::extends(y, Seq::empty())
                        &&& model::objective_value(p, y) == opt
                    };
                model::lemma_prefix_index_bounds(y, k);
                assert(best_w <= opt || seed <= opt);
                if best_w <= opt {
                    assert(best_w != i64::MAX) by {
                        model::lemma_objective_below_sentinel(p, y);
                    }
                    assert(model::extends(sol_w@, Seq::empty())) by {
                        assert(sol_w@.subrange(0, 0) =~= Seq::<u8>::empty());
                    }
                    model::lemma_subtree_best_lb(p, Seq::empty(), sol_w@);
                    assert(best_w == opt);
                } else {
                    if best_w != i64::MAX {
                        assert(model::extends(sol_w@, Seq::empty())) by {
                            assert(sol_w@.subrange(0, 0) =~= Seq::<u8>::empty());
                        }
                        model::lemma_subtree_best_lb(p, Seq::empty(), sol_w@);
                    }
                }
            } else {
                if best_w != i64::MAX {
                    assert(model::extends(sol_w@, Seq::empty())) by {
                        assert(sol_w@.subrange(0, 0) =~= Seq::<u8>::empty());
                    }
                    model::lemma_subtree_best_lb(p, Seq::empty(), sol_w@);
                    model::lemma_objective_below_sentinel(p, sol_w@);
                    assert(false);
                }
            }
        }
        if best_w < self.best {
            self.solution = sol_w;
            self.best = best_w;
        }
        self.count = if self.count <= u64::MAX - total {
            self.count + total
        } else {
            u64::MAX
        };
    }

    /// A fresh shared-bound cell tied to this handle's problem, for
    /// callers that run their own worker pool over `solve_subtree`.
    pub fn make_shared_bound(&self) -> (r: crate::shared::SharedBound)
        ensures
            r.problem() == self.problem(),
    {
        crate::shared::SharedBound::new(Ghost(self.fixed.pv()))
    }

    /// Searches one subtree of the decision tree: the branches at depths
    /// below `start_var_index` are fixed by the low bits of `tree_index`
    /// (bit `i` is the branch at depth `i`), and the traversal explores
    /// every completion.  Returns the best feasible objective this worker
    /// itself found, the node count, and a witness solution from this
    /// subtree; `i64::MAX` means no feasible assignment in this subtree
    /// beats `seed`, and comes with an empty solution.  Improvements are
    /// published to `shared`; callers that run their own worker pool
    /// partition the tree with this method, one call per prefix index,
    /// and read `shared` between or after calls to tighten seeds and to
    /// pick up the best published incumbent.
    pub fn solve_subtree(
        &self,
        start_var_index: usize,
        tree_index: usize,
        seed: i64,
        shared: &crate::shared::SharedBound,
    ) -> (r: (i64, u64, Vec<u8>))
        requires
            self.wf(),
            start_var_index < self.problem().n(),
            shared.problem() == self.problem(),
        ensures
            r.0 == i64::MAX ==> r.2@.len() == 0,
            r.0 != i64::MAX ==> model::feasible(self.problem(), r.2@) && model::objective_value(
                self.problem(),
                r.2@,
            ) == r.0 && r.2@.subrange(0, start_var_index as int) == model::prefix_bits(
                tree_index as int,
                start_var_index as nat,
            ),
            forall|x: Seq<u8>|
                model::is_assignment(self.problem(), x) && model::satisfies(self.problem(), x)
                    && x.subrange(0, start_var_index as int) == model::prefix_bits(
                    tree_index as int,
                    start_var_index as nat,
                ) ==> r.0 <= #[trigger] model::objective_value(self.problem(), x) || seed
                    <= model::objective_value(self.problem(), x),
            1 <= r.1 <= 2 * model::pow2((self.problem().n() - start_var_index) as nat),
    {
        let r = crate::worker::solve_subtree(start_var_index, tree_index, &self.fixed, seed, shared);
        proof {
            assert forall|x: Seq<u8>|
                model::is_assignment(self.problem(), x) && model::satisfies(self.problem(), x)
                    && x.subrange(0, start_var_index as int) == model::prefix_bits(
                    tree_index as int,
                    start_var_index as nat,
                ) implies r.0 <= #[trigger] model::objective_value(self.problem(), x) || seed
                <= model::objective_value(self.problem(), x) by {
                assert(crate::worker::in_scope(
                    self.problem(),
                    x,
                    start_var_index as int,
                    tree_index as int,
                ));
            }
        }
        r
    }

    /// Builds, from the transposed constraint matrix, the per-depth upper
    /// bound on future accumulator gains: row `v` of the result sums the
    /// positive contributions of all variables strictly deeper than `v`.
    /// Row `n - 1` is deliberately absent, signalling "no children".
    pub fn make_cumulative(constraints: &Vec<Vec<i64>>) -> (r: Vec<Vec<i64>>)
        requires
            1 <= constraints@.len() <= MAX_VARS,
            forall|v: int, c: int|
                0 <= v < constraints@.len() && 0 <= c < constraints@[v]@.len() ==> -MAX_ENTRY
                    <= #[trigger] constraints@[v]@[c] <= MAX_ENTRY,
            forall|v: int|
                0 <= v < constraints@.len() ==> #[trigger] constraints@[v]@.len()
                    == constraints@[0]@.len(),
        ensures
            r.deep_view().len() == constraints@.len() - 1,
            forall|v: int|
                0 <= v < constraints@.len() - 1 ==> #[trigger] r.deep_view()[v].len()
                    == constraints@[0]@.len(),
            forall|v: int, c: int|
                0 <= v < constraints@.len() - 1 && 0 <= c < constraints@[0]@.len()
                    ==> r.deep_view()[v][c] == col_suffix_pos(constraints.deep_view(), c, v + 1),
    {
        let n = constraints.len();
        let num_cols = constraints[0].len();
        let ghost cons = constraints.deep_view();
        let mut running_total: Vec<i64> = Vec::new();
        for _j in 0..num_cols
            invariant
                running_total@.len() == _j,
                forall|c: int| 0 <= c < _j ==> running_total@[c] == 0,
        {
            running_total.push(0);
        }
        assert(forall|c: int| 0 <= c < num_cols ==> running_total@[c] == col_suffix_pos(cons, c, n as int));
        let mut stacked: Vec<Vec<i64>> = Vec::new();
        let mut v: usize = n - 1;
        while v >= 1
            invariant
                1 <= n == cons.len() <= MAX_VARS,
                0 <= v <= n - 1,
                num_cols == constraints@[0]@.len(),
                cons == constraints.deep_view(),
                forall|u: int| 0 <= u < n ==> #[trigger] cons[u].len() == num_cols,
                forall|u: int, c: int|
                    0 <= u < n && 0 <= c < num_cols ==> -MAX_ENTRY <= #[trigger] cons[u][c]
                        <= MAX_ENTRY,
                running_total@.len() == num_cols,
                forall|c: int|
                    0 <= c < num_cols ==> running_total@[c] == col_suffix_pos(cons, c, v + 1),
                stacked.deep_view().len() == n - 1 - v,
                forall|i: int|
                    0 <= i < n - 1 - v ==> #[trigger] stacked.deep_view()[i].len() == num_cols,
                forall|i: int, c: int|
                    0 <= i < n - 1 - v && 0 <= c < num_cols ==> stacked.deep_view()[i][c]
                        == col_suffix_pos(cons, c, n - 1 - i),
            decreases v,
        {
            let row = &constraints[v];
            for c in 0..num_cols
                invariant
                    1 <= v < n == cons.len() <= MAX_VARS,
                    num_cols == cons[v as int].len(),
                    row@ == cons[v as int],
                    forall|u: int| 0 <= u < n ==> #[trigger] cons[u].len() == num_cols,
                    forall|u: int, cc: int|
                        0 <= u < n && 0 <= cc < num_cols ==> -MAX_ENTRY <= #[trigger] cons[u][cc]
                            <= MAX_ENTRY,
                    running_total@.len() == num_cols,
                    forall|cc: int|
                        c <= cc < num_cols ==> running_total@[cc] == col_suffix_pos(
                            cons,
                            cc,
                            v + 1,
                        ),
                    forall|cc: int|
                        0 <= cc < c ==> running_total@[cc] == col_suffix_pos(cons, cc, v as int),
            {
                proof {
                    lemma_col_suffix_pos_bounds(cons, c as int, v as int);
                    lemma_col_suffix_pos_bounds(cons, c as int, v + 1);
                }
                if row[c] > 0 {
                    let updated = running_total[c] + row[c];
                    running_total.set(c, updated);
                }
            }
            let row_copy = copy_values(&running_total);
            let ghost pre = stacked.deep_view();
            stacked.push(row_copy);
            proof {
                assert(stacked.deep_view() =~~= pre.push(running_total@));
            }
            v = v - 1;
        }
        let mut r: Vec<Vec<i64>> = Vec::new();
        let mut i: usize = stacked.len();
        while i > 0
            invariant
                stacked.deep_view().len() == n - 1,
                r.deep_view().len() == n - 1 - i,
                0 <= i <= n - 1,
                forall|j: int|
                    0 <= j < n - 1 - i ==> r.deep_view()[j] == stacked.deep_view()[n - 2 - j],
            decreases i,
        {
            i = i - 1;
            let row_copy = copy_values(&stacked[i]);
            let ghost pre = r.deep_view();
            r.push(row_copy);
            proof {
                assert(r.deep_view() =~~= pre.push(stacked.deep_view()[i as int]));
            }
        }
        r
    }
}

/// Copies the immutable problem data so each worker thread can own it.
pub(crate) fn clone_fixed(f: &Fixed) -> (r: Fixed)
    ensures
        r.pv() == f.pv(),
        r.num_vars == f.num_vars,
        r.wf() == f.wf(),
{
    let r = Fixed {
        num_vars: f.num_vars,
        coefficients: copy_values(&f.coefficients),
        constraints: copy_matrix(&f.constraints),
        rhs: copy_values(&f.rhs),
        cumulative: copy_matrix(&f.cumulative),
    };
    proof {
        assert(r.pv() =~= f.pv());
    }
    r
}

/// Copies a vector of numbers.
pub(crate) fn copy_values(src: &Vec<i64>) -> (r: Vec<i64>)
    ensures
        r@ == src@,
{
    let mut r: Vec<i64> = Vec::new();
    for i in 0..src.len()
        invariant
            r@ == src@.subrange(0, i as int),
    {
        r.push(src[i]);
        proof {
            assert(r@ =~= src@.subrange(0, i + 1));
        }
    }
    proof {
        assert(src@.subrange(0, src@.len() as int) =~= src@);
    }
    r
}

/// Copies a matrix of numbers row by row.
pub(crate) fn copy_matrix(src: &Vec<Vec<i64>>) -> (r: Vec<Vec<i64>>)
    ensures
        r.deep_view() == src.deep_view(),
        r@.len() == src@.len(),
    {
    let mut r: Vec<Vec<i64>> = Vec::new();
    for i in 0..src.len()
        invariant
            r.deep_view().len() == i,
            forall|j: int| 0 <= j < i ==> #[trigger] r.deep_view()[j] == src.deep_view()[j],
    {
        let row_copy = copy_values(&src[i]);
        let ghost pre = r.deep_view();
        r.push(row_copy);
        proof {
            assert(r.deep_view() =~~= pre.push(src.deep_view()[i as int]));
        }
    }
    proof {
        assert(r.deep_view() =~= src.deep_view());
    }
    r
}

/// Copies a vector of names.
fn copy_names(src: &Vec<String>) -> (r: Vec<String>)
    ensures
        r@ == src@,
{
    let mut r: Vec<String> = Vec::new();
    for i in 0..src.len()
        invariant
            r@ == src@.subrange(0, i as int),
    {
        r.push(src[i].clone());
        proof {
            assert(r@ =~= src@.subrange(0, i + 1));
        }
    }
    proof {
        assert(src@.subrange(0, src@.len() as int) =~= src@);
    }
    r
}

} // verus!
