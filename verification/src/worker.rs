//! Subtree worker: a single-threaded iterative traversal of one fixed
//! subtree of the binary decision tree, maintaining an incremental
//! objective value and constraint accumulator and emitting its own
//! best-so-far feasible solution.
use vstd::prelude::*;

use crate::model::{
    feasible, is_assignment, is_bits, lemma_lhs_upto_bounds, lemma_lhs_upto_congruence,
    lemma_lhs_zero_tail, lemma_objective_upto_bounds, lemma_objective_upto_congruence,
    lemma_objective_upto_monotone, lemma_pow2_increases, lemma_pow2_pos, lhs_upto, lhs_value,
    objective_upto, objective_value, pow2, prefix_bits, satisfies, suffix_pos, ProblemView,
};
use crate::Fixed;

verus! {

/// Control state of the iterative traversal.
#[derive(Clone, Copy)]
pub enum Flow {
    Terminate,
    Backtrack,
    Normal,
}

/// How many variables of the current path have already been folded into
/// the accumulator and objective: in `Backtrack` the branch at the
/// current depth has been applied, in `Normal` it has not.
pub open spec fn applied_depth(st: Flow, d: int) -> int {
    if st is Backtrack {
        d + 1
    } else {
        d
    }
}

/// `x` lies in the not-yet-visited one-branch sibling of an open zero at
/// depth `j` of the current path: the traversal will reach it when it
/// backtracks to depth `j`.
pub open spec fn open_one(x: Seq<u8>, vars: Seq<u8>, k: int, d: int, st: Flow, j: int) -> bool {
    &&& k <= j <= d
    &&& (st is Backtrack || j < d)
    &&& vars[j] == 0
    &&& x[j] == 1
    &&& x.subrange(0, j) == vars.subrange(0, j)
}

/// The traversal in state `(st, d, b)` over path `vars` has not yet
/// finished examining assignment `x`: either `x` completes the node the
/// machine is about to process, or `x` lies in the one-branch sibling of
/// some open zero on the current path.
pub open spec fn pending(x: Seq<u8>, vars: Seq<u8>, k: int, d: int, b: u8, st: Flow) -> bool {
    ||| {
        &&& st is Normal
        &&& x.subrange(0, d) == vars.subrange(0, d)
        &&& (b == 1 ==> x[d] == 1)
    }
    ||| {
        &&& st is Normal || st is Backtrack
        &&& exists|j: int| #[trigger] open_one(x, vars, k, d, st, j)
    }
}

/// A feasible assignment lying in this worker's subtree: it extends the
/// prefix selected by the low `k` bits of `t`.
pub open spec fn in_scope(p: ProblemView, x: Seq<u8>, k: int, t: int) -> bool {
    &&& is_assignment(p, x)
    &&& satisfies(p, x)
    &&& x.subrange(0, k) == prefix_bits(t, k as nat)
}

/// Weight of the still-unvisited subtree rooted at depth `j`, scaled by
/// `scale`: `scale` times the node count of a tree of height `n - j`.
pub open spec fn sub_weight(n: int, j: int, scale: int) -> int {
    scale * (pow2((n - j) as nat) - 1)
}

/// Total weight of the one-branch siblings still open at the zeros of
/// `vars` between `k` and `jmax`.
pub open spec fn pend_weight(vars: Seq<u8>, n: int, k: int, jmax: int, scale: int) -> int
    decreases jmax - k + 1,
{
    if jmax < k {
        0
    } else {
        pend_weight(vars, n, k, jmax - 1, scale) + if vars[jmax] == 0 {
            sub_weight(n, jmax, scale)
        } else {
            0
        }
    }
}

/// Work remaining in the traversal, scaled by `scale`, not counting the
/// per-step backtracking credit.
pub open spec fn tree_left(vars: Seq<u8>, n: int, k: int, d: int, b: u8, st: Flow, scale: int) -> int {
    match st {
        Flow::Normal => pend_weight(vars, n, k, d - 1, scale) + if b == 0 {
            2 * sub_weight(n, d, scale)
        } else {
            sub_weight(n, d, scale)
        },
        Flow::Backtrack => pend_weight(vars, n, k, d, scale),
        Flow::Terminate => 0,
    }
}

/// Termination measure of the traversal loop: the remaining work scaled
/// so that each backtracking step can pay for itself, plus the distance
/// still to climb.
pub open spec fn measure(vars: Seq<u8>, n: int, k: int, d: int, b: u8, st: Flow) -> int {
    tree_left(vars, n, k, d, b, st, n + 2) + if st is Backtrack {
        d - k + 1
    } else {
        0
    }
}

/// Nodes the traversal may still visit.
pub open spec fn nodes_left(vars: Seq<u8>, n: int, k: int, d: int, b: u8, st: Flow) -> int {
    tree_left(vars, n, k, d, b, st, 1)
}

/// Everything `solve_subtree` promises: a finite best value is witnessed
/// by a feasible solution from this worker's own subtree achieving it
/// exactly, the sentinel comes with an empty solution, no feasible
/// assignment of the assigned subtree beats both the returned best and
/// the seed, and the node count is at least the subtree root and at most
/// the subtree size.
pub open spec fn worker_post(p: ProblemView, k: int, t: int, seed: i64, r: (i64, u64, Vec<u8>)) -> bool {
    &&& r.0 == i64::MAX ==> r.2@.len() == 0
    &&& r.0 != i64::MAX ==> feasible(p, r.2@) && objective_value(p, r.2@) == r.0
        && r.2@.subrange(0, k) == prefix_bits(t, k as nat)
    &&& forall|x: Seq<u8>|
        #[trigger] in_scope(p, x, k, t) ==> r.0 <= objective_value(p, x) || seed
            <= objective_value(p, x)
    &&& 1 <= r.1 <= 2 * pow2((p.n() - k) as nat)
}

pub proof fn lemma_pend_weight_nonneg(vars: Seq<u8>, n: int, k: int, jmax: int, scale: int)
    requires
        scale >= 0,
        jmax < n,
    ensures
        pend_weight(vars, n, k, jmax, scale) >= 0,
    decreases jmax - k + 1,
{
    if jmax >= k {
        lemma_pend_weight_nonneg(vars, n, k, jmax - 1, scale);
        if vars[jmax] == 0 {
            lemma_pow2_pos((n - jmax) as nat);
        }
    }
}

/// The pending weight only looks at `vars` between `k` and `jmax`.
pub proof fn lemma_pend_weight_congruence(
    v1: Seq<u8>,
    v2: Seq<u8>,
    n: int,
    k: int,
    jmax: int,
    scale: int,
)
    requires
        forall|j: int| k <= j <= jmax ==> v1[j] == v2[j],
    ensures
        pend_weight(v1, n, k, jmax, scale) == pend_weight(v2, n, k, jmax, scale),
    decreases jmax - k + 1,
{
    if jmax >= k {
        lemma_pend_weight_congruence(v1, v2, n, k, jmax - 1, scale);
    }
}

/// Splitting a subtree: its root node plus two child subtrees.
pub proof fn lemma_sub_weight_split(n: int, j: int, scale: int)
    requires
        j < n,
        scale >= 0,
    ensures
        2 * sub_weight(n, j + 1, scale) == sub_weight(n, j, scale) - scale,
        sub_weight(n, j, scale) >= scale,
{
    assert(pow2((n - j) as nat) == 2 * pow2((n - j - 1) as nat));
    assert(scale * (2 * pow2((n - j - 1) as nat) - 1) == 2 * (scale * (pow2((n - j - 1) as nat) - 1))
        + scale) by (nonlinear_arith);
    lemma_pow2_pos((n - j - 1) as nat);
    assert(scale * (pow2((n - j) as nat) - 1) >= scale * 1) by (nonlinear_arith)
        requires
            pow2((n - j) as nat) - 1 >= 1,
            scale >= 0,
    ;
}

/// Any completion of the current path scores at least the path's own
/// partial objective: future coefficients are nonnegative.
proof fn lemma_completion_obj_lb(p: ProblemView, x: Seq<u8>, vars: Seq<u8>, upto: int)
    requires
        p.wf(),
        is_bits(x),
        x.len() == p.n(),
        0 <= upto <= p.n(),
        forall|v: int| 0 <= v < upto ==> x[v] == vars[v],
    ensures
        objective_value(p, x) >= objective_upto(p, vars, upto),
{
    lemma_objective_upto_monotone(p, x, upto, p.n());
    lemma_objective_upto_congruence(p, x, vars, upto);
}

/// When a row cannot recover even with every remaining positive
/// contribution, no completion of the current path satisfies it.
proof fn lemma_completion_infeasible(p: ProblemView, x: Seq<u8>, vars: Seq<u8>, upto: int, c: int)
    requires
        p.wf(),
        is_bits(x),
        x.len() == p.n(),
        0 <= c < p.m(),
        0 <= upto <= p.n(),
        forall|v: int| 0 <= v < upto ==> x[v] == vars[v],
        lhs_upto(p, vars, c, upto) + suffix_pos(p, c, upto) < p.rhs[c],
    ensures
        !satisfies(p, x),
{
    crate::model::lemma_lhs_suffix_bound(p, x, c, upto);
    lemma_lhs_upto_congruence(p, x, vars, c, upto);
}

/// A path whose accumulator is entirely nonnegative is itself a feasible
/// assignment, its deeper variables all being zero.
pub(crate) proof fn lemma_acc_feasible(p: ProblemView, vars: Seq<u8>, acc: Seq<i64>, upto: int)
    requires
        p.wf(),
        is_bits(vars),
        vars.len() == p.n(),
        0 <= upto <= p.n(),
        forall|v: int| upto <= v < p.n() ==> vars[v] == 0,
        acc.len() == p.m(),
        forall|c: int| 0 <= c < p.m() ==> acc[c] == lhs_upto(p, vars, c, upto) - p.rhs[c],
        forall|c: int| 0 <= c < p.m() ==> acc[c] >= 0,
    ensures
        satisfies(p, vars),
{
    assert forall|c: int| 0 <= c < p.m() implies lhs_value(p, vars, c) >= p.rhs[c] by {
        assert(acc[c] >= 0);
        assert(acc[c] == lhs_upto(p, vars, c, upto) - p.rhs[c]);
        lemma_lhs_zero_tail(p, vars, c, upto);
    }
}

/// Replays the branches named by the low bits of `tree_index` along the
/// path from the root to the subtree root at depth `start`: the
/// accumulator, the objective, and the path variables of that node.
pub(crate) fn init_subtree(start: usize, tree_index: usize, fixed: &Fixed) -> (r: (Vec<i64>, i64, Vec<u8>))
    requires
        fixed.wf(),
        start < fixed.pv().n(),
    ensures
        ({
            let (acc, objective, vars) = r;
            {
                &&& vars@ == prefix_bits(tree_index as int, start as nat)
                &&& is_bits(vars@)
                &&& vars@.len() == start
                &&& acc@.len() == fixed.pv().m()
                &&& forall|c: int|
                    0 <= c < fixed.pv().m() ==> acc@[c] == lhs_upto(fixed.pv(), vars@, c, start as int)
                        - fixed.pv().rhs[c]
                &&& objective == objective_upto(fixed.pv(), vars@, start as int)
            }
        }),
{
    let ghost p = fixed.pv();
    let ghost t = tree_index as int;
    let m = fixed.rhs.len();
    let mut accumulator: Vec<i64> = Vec::new();
    for c in 0..m
        invariant
            m == p.m(),
            fixed.wf(),
            p == fixed.pv(),
            accumulator@.len() == c,
            forall|cc: int| 0 <= cc < c ==> accumulator@[cc] == -p.rhs[cc],
    {
        accumulator.push(-fixed.rhs[c]);
    }
    let mut objective: i64 = 0;
    let mut branches: usize = tree_index;
    let mut vars: Vec<u8> = Vec::new();

    for var_index in 0..start
        invariant
            fixed.wf(),
            p == fixed.pv(),
            m == p.m(),
            start < p.n(),
            vars@.len() == var_index,
            is_bits(vars@),
            vars@ + prefix_bits(branches as int, (start - var_index) as nat) == prefix_bits(
                t,
                start as nat,
            ),
            objective == objective_upto(p, vars@, var_index as int),
            accumulator@.len() == m,
            forall|c: int|
                0 <= c < m ==> accumulator@[c] == lhs_upto(p, vars@, c, var_index as int)
                    - p.rhs[c],
    {
        let branch: u8 = if branches % 2 == 1 {
            1
        } else {
            0
        };
        let ghost vars_old = vars@;
        vars.push(branch);
        proof {
            assert(prefix_bits(branches as int, (start - var_index) as nat) == seq![branch]
                + prefix_bits(branches as int / 2, (start - var_index - 1) as nat));
            assert(vars@ + prefix_bits(branches as int / 2, (start - var_index - 1) as nat)
                =~= vars_old + prefix_bits(branches as int, (start - var_index) as nat));
            lemma_objective_upto_congruence(p, vars_old, vars@, var_index as int);
            assert(forall|c: int|
                0 <= c < m ==> lhs_upto(p, vars_old, c, var_index as int) == lhs_upto(
                    p,
                    vars@,
                    c,
                    var_index as int,
                )) by {
                assert forall|c: int| 0 <= c < m implies lhs_upto(p, vars_old, c, var_index as int)
                    == lhs_upto(p, vars@, c, var_index as int) by {
                    lemma_lhs_upto_congruence(p, vars_old, vars@, c, var_index as int);
                }
            }
        }
        if branch == 1 {
            proof {
                lemma_objective_upto_bounds(p, vars@, var_index as int);
                assert(p.constraints[var_index as int] =~= fixed.constraints@[var_index as int]@);
                assert(objective_upto(p, vars@, var_index + 1) == objective_upto(
                    p,
                    vars@,
                    var_index as int,
                ) + p.coefficients[var_index as int] * 1);
            }
            objective = objective + fixed.coefficients[var_index];
            for c in 0..m
                invariant
                    fixed.wf(),
                    p == fixed.pv(),
                    m == p.m(),
                    var_index < start < p.n(),
                    vars@.len() == var_index + 1,
                    is_bits(vars@),
                    vars@[var_index as int] == 1,
                    accumulator@.len() == m,
                    forall|cc: int|
                        c <= cc < m ==> accumulator@[cc] == lhs_upto(p, vars@, cc, var_index as int)
                            - p.rhs[cc],
                    forall|cc: int|
                        0 <= cc < c ==> accumulator@[cc] == lhs_upto(
                            p,
                            vars@,
                            cc,
                            var_index + 1,
                        ) - p.rhs[cc],
            {
                proof {
                    lemma_lhs_upto_bounds(p, vars@, c as int, var_index as int);
                    assert(p.constraints[var_index as int] =~= fixed.constraints@[var_index as int]@);
                    assert(lhs_upto(p, vars@, c as int, var_index + 1) == lhs_upto(
                        p,
                        vars@,
                        c as int,
                        var_index as int,
                    ) + p.constraints[var_index as int][c as int] * 1);
                }
                let updated = accumulator[c] + fixed.constraints[var_index][c];
                accumulator.set(c, updated);
            }
        } else {
            proof {
                assert(vars@[var_index as int] == 0);
                assert forall|c: int| 0 <= c < m implies lhs_upto(p, vars@, c, var_index + 1)
                    == lhs_upto(p, vars@, c, var_index as int) by {
                    assert(lhs_upto(p, vars@, c, var_index + 1) == lhs_upto(
                        p,
                        vars@,
                        c,
                        var_index as int,
                    ) + p.constraints[var_index as int][c] * (vars@[var_index as int] as int));
                }
                assert(objective_upto(p, vars@, var_index + 1) == objective_upto(
                    p,
                    vars@,
                    var_index as int,
                ) + p.coefficients[var_index as int] * (vars@[var_index as int] as int));
            }
        }
        branches = branches / 2;
    }
    proof {
        assert(vars@ + prefix_bits(branches as int, 0) =~= vars@);
    }
    (accumulator, objective, vars)
}

/// Copies a zero/one vector.
pub(crate) fn copy_bits(src: &Vec<u8>) -> (r: Vec<u8>)
    ensures
        r@ == src@,
{
    let mut r: Vec<u8> = Vec::new();
    for i in 0..src.len()
        invariant
            r@ == src@.subrange(0, i as int),
    {
        r.push(src[i]);
        proof {
            assert(r@ =~= src@.subrange(0, i + 1));
        }
    }
    proof {
        assert(src@.subrange(0, src@.len() as int) =~= src@);
    }
    r
}

/// The fathom test: every accumulator entry is nonnegative, i.e. the
/// current path with all deeper variables at zero is feasible.
pub(crate) fn all_nonneg_values(acc: &Vec<i64>) -> (r: bool)
    ensures
        r <==> forall|c: int| 0 <= c < acc@.len() ==> acc@[c] >= 0,
{
    let mut ok = true;
    for c in 0..acc.len()
        invariant
            ok <==> forall|cc: int| 0 <= cc < c ==> acc@[cc] >= 0,
    {
        if acc[c] < 0 {
            ok = false;
        }
    }
    ok
}

/// The cumulative feasibility test at depth `d`: adding the best case of
/// every deeper variable keeps each accumulator entry nonnegative, so a
/// feasible descendant may still exist.
pub(crate) fn tail_can_satisfy(acc: &Vec<i64>, fixed: &Fixed, d: usize) -> (r: bool)
    requires
        fixed.wf(),
        d < fixed.pv().n() - 1,
        acc@.len() == fixed.pv().m(),
        forall|c: int|
            0 <= c < acc@.len() ==> -0x100_0000_0000i64 <= #[trigger] acc@[c] <= 0x100_0000_0000i64,
    ensures
        r <==> forall|c: int|
            0 <= c < fixed.pv().m() ==> acc@[c] + suffix_pos(fixed.pv(), c, d + 1) >= 0,
{
    let ghost p = fixed.pv();
    let m = acc.len();
    proof {
        assert(fixed.cumulative@.len() == fixed.cumulative.deep_view().len());
        assert(fixed.cumulative.deep_view()[d as int] =~= fixed.cumulative@[d as int]@);
    }
    let row = &fixed.cumulative[d];
    let mut ok = true;
    for c in 0..m
        invariant
            p == fixed.pv(),
            fixed.wf(),
            m == p.m(),
            d < p.n() - 1,
            acc@.len() == m,
            forall|cc: int|
                0 <= cc < m ==> -0x100_0000_0000i64 <= #[trigger] acc@[cc] <= 0x100_0000_0000i64,
            row@ == fixed.cumulative.deep_view()[d as int],
            row@.len() == m,
            forall|cc: int| 0 <= cc < m ==> #[trigger] row@[cc] == suffix_pos(p, cc, d + 1),
            ok <==> forall|cc: int| 0 <= cc < c ==> acc@[cc] + suffix_pos(p, cc, d + 1) >= 0,
    {
        proof {
            crate::model::lemma_suffix_pos_bounds(p, c as int, d + 1);
        }
        if acc[c] + row[c] < 0 {
            ok = false;
        }
    }
    ok
}

/// Decides, after the pruning and fathom tests of a `Normal` step, how
/// the traversal goes on: descend to the zero-child when some completion
/// may still be feasible, otherwise backtrack.  Returns the next
/// `(depth, branch, state)` triple.
#[verifier::rlimit(30)]
fn descend_or_backtrack(
    fixed: &Fixed,
    acc: &Vec<i64>,
    var_index: usize,
    branch: u8,
    Ghost(k): Ghost<int>,
    Ghost(t): Ghost<int>,
    Ghost(vars): Ghost<Seq<u8>>,
    Ghost(bg): Ghost<i64>,
    Ghost(sg): Ghost<i64>,
) -> (r: (usize, u8, Flow))
    requires
        fixed.wf(),
        0 <= k <= var_index < fixed.pv().n(),
        branch == 0 || branch == 1,
        vars.len() == fixed.pv().n(),
        is_bits(vars),
        vars[var_index as int] == branch,
        forall|v: int| var_index < v < fixed.pv().n() ==> vars[v] == 0,
        acc@.len() == fixed.pv().m(),
        forall|c: int|
            0 <= c < fixed.pv().m() ==> acc@[c] == lhs_upto(
                fixed.pv(),
                vars,
                c,
                var_index + 1,
            ) - fixed.pv().rhs[c],
        !(forall|c: int| 0 <= c < fixed.pv().m() ==> acc@[c] >= 0),
        forall|x: Seq<u8>| #[trigger]
            in_scope(fixed.pv(), x, k, t) ==> bg <= objective_value(fixed.pv(), x) || sg
                <= objective_value(fixed.pv(), x) || pending(
                x,
                vars,
                k,
                var_index as int,
                branch,
                Flow::Normal,
            ),
    ensures
        ({
            let p = fixed.pv();
            let n = p.n();
            let d = var_index as int;
            {
                &&& (r.2 is Normal || r.2 is Backtrack)
                &&& (r.2 is Normal ==> r.0 == var_index + 1 && r.1 == 0 && k <= r.0 < n)
                &&& (r.2 is Backtrack ==> r.0 == var_index && r.1 == branch)
                &&& forall|x: Seq<u8>| #[trigger]
                    in_scope(p, x, k, t) ==> bg <= objective_value(p, x) || sg <= objective_value(
                        p,
                        x,
                    ) || pending(x, vars, k, r.0 as int, r.1, r.2)
                &&& measure(vars, n, k, r.0 as int, r.1, r.2) <= measure(
                    vars,
                    n,
                    k,
                    d,
                    branch,
                    Flow::Normal,
                ) - 1
                &&& measure(vars, n, k, r.0 as int, r.1, r.2) >= 0
                &&& nodes_left(vars, n, k, r.0 as int, r.1, r.2) <= nodes_left(
                    vars,
                    n,
                    k,
                    d,
                    branch,
                    Flow::Normal,
                ) - 1
                &&& nodes_left(vars, n, k, r.0 as int, r.1, r.2) >= 0
            }
        }),
{
    let ghost p = fixed.pv();
    let ghost n = p.n();
    let ghost d = var_index as int;
    proof {
        lemma_pend_weight_nonneg(vars, n, k, d - 1, n + 2);
        lemma_pend_weight_nonneg(vars, n, k, d - 1, 1);
        lemma_sub_weight_split(n, d, n + 2);
        lemma_sub_weight_split(n, d, 1);
    }
    let mut can = false;
    if var_index + 1 < fixed.num_vars {
        proof {
            assert forall|c: int| 0 <= c < p.m() implies -0x100_0000_0000i64 <= acc@[c]
                && acc@[c] <= 0x100_0000_0000i64 by {
                lemma_lhs_upto_bounds(p, vars, c, d + 1);
            }
        }
        can = tail_can_satisfy(acc, fixed, var_index);
    }
    if can {
        proof {
            lemma_sub_weight_split(n, d + 1, n + 2);
            lemma_sub_weight_split(n, d + 1, 1);
            assert forall|x: Seq<u8>| #[trigger]
                in_scope(p, x, k, t) implies bg <= objective_value(p, x) || sg <= objective_value(
                p,
                x,
            ) || pending(x, vars, k, d + 1, 0u8, Flow::Normal) by {
                if !(bg <= objective_value(p, x) || sg <= objective_value(p, x)) {
                    assert(pending(x, vars, k, d, branch, Flow::Normal));
                    if x.subrange(0, d) == vars.subrange(0, d) && (branch == 1 ==> x[d] == 1) {
                        if x[d] == vars[d] {
                            assert(x.subrange(0, d + 1) =~= vars.subrange(0, d + 1));
                        } else {
                            assert(branch == 0 && x[d] == 1 && vars[d] == 0);
                            assert(open_one(x, vars, k, d + 1, Flow::Normal, d));
                        }
                    } else {
                        let j = choose|j: int| open_one(x, vars, k, d, Flow::Normal, j);
                        assert(open_one(x, vars, k, d + 1, Flow::Normal, j));
                    }
                }
            }
        }
        (var_index + 1, 0, Flow::Normal)
    } else {
        proof {
            assert forall|x: Seq<u8>| #[trigger]
                in_scope(p, x, k, t) implies bg <= objective_value(p, x) || sg <= objective_value(
                p,
                x,
            ) || pending(x, vars, k, d, branch, Flow::Backtrack) by {
                if !(bg <= objective_value(p, x) || sg <= objective_value(p, x)) {
                    assert(pending(x, vars, k, d, branch, Flow::Normal));
                    if x.subrange(0, d) == vars.subrange(0, d) && (branch == 1 ==> x[d] == 1) {
                        if x[d] == vars[d] {
                            assert forall|v: int| 0 <= v < d + 1 implies x[v] == vars[v] by {
                                if v < d {
                                    assert(x.subrange(0, d)[v] == vars.subrange(0, d)[v]);
                                }
                            }
                            if var_index + 1 == fixed.num_vars {
                                let c1 = choose|c: int| 0 <= c < p.m() && acc@[c] < 0;
                                assert(x =~= vars);
                                assert(lhs_value(p, vars, c1) == lhs_upto(p, vars, c1, d + 1));
                                assert(false);
                            } else {
                                let c0 = choose|c: int|
                                    0 <= c < p.m() && !(acc@[c] + suffix_pos(p, c, d + 1) >= 0);
                                lemma_completion_infeasible(p, x, vars, d + 1, c0);
                                assert(false);
                            }
                        } else {
                            assert(branch == 0 && x[d] == 1 && vars[d] == 0);
                            assert(open_one(x, vars, k, d, Flow::Backtrack, d));
                        }
                    } else {
                        let j = choose|j: int| open_one(x, vars, k, d, Flow::Normal, j);
                        assert(open_one(x, vars, k, d, Flow::Backtrack, j));
                    }
                }
            }
        }
        (var_index, branch, Flow::Backtrack)
    }
}

/// Runs the iterative three-state traversal over the subtree of the
/// decision tree named by the low `start` bits of `tree_index`: the best
/// feasible objective found, the number of nodes visited, and a witness
/// solution.  Nodes are pruned when their objective cannot beat the
/// worker's own best or the caller's seed, fathomed when feasible, and
/// abandoned when no completion can satisfy some constraint row; every
/// improved incumbent is offered to the shared cell, and the returned
/// solution is always this worker's own snapshot, so a caller composing
/// workers reads the cell itself to pass a tightened seed on.
#[verifier::rlimit(100)]
#[verifier::spinoff_prover]
pub(crate) fn solve_subtree(
    start: usize,
    tree_index: usize,
    fixed: &Fixed,
    seed: i64,
    shared: &crate::shared::SharedBound,
) -> (r: (i64, u64, Vec<u8>))
    requires
        fixed.wf(),
        start < fixed.pv().n(),
        shared.problem() == fixed.pv(),
    ensures
        worker_post(fixed.pv(), start as int, tree_index as int, seed, r),
{
    let ghost p = fixed.pv();
    let ghost n = p.n();
    let ghost k = start as int;
    let ghost t = tree_index as int;
    let n_exec = fixed.num_vars;
    let m = fixed.rhs.len();

    let mut var_index: usize = start;
    let mut st = Flow::Normal;
    let mut count: u64 = 0;
    let mut best: i64 = i64::MAX;
    let mut solution: Vec<u8> = Vec::new();
    let mut branch: u8 = 0;

    let (mut accumulator, mut objective, mut vars) = init_subtree(start, tree_index, fixed);
    let ghost prefix = vars@;
    while vars.len() < n_exec
        invariant
            n_exec == n,
            n == p.n(),
            start <= vars@.len() <= n,
            vars@.subrange(0, k) == prefix,
            k == start as int,
            is_bits(vars@),
            forall|v: int| k <= v < vars@.len() ==> vars@[v] == 0,
        decreases n - vars@.len(),
    {
        let ghost before = vars@;
        vars.push(0);
        proof {
            assert(vars@.subrange(0, k) =~= before.subrange(0, k));
        }
    }
    proof {
        lemma_objective_upto_congruence(p, prefix, vars@, k);
        assert forall|c: int| 0 <= c < p.m() implies lhs_upto(p, prefix, c, k) == lhs_upto(
            p,
            vars@,
            c,
            k,
        ) by {
            lemma_lhs_upto_congruence(p, prefix, vars@, c, k);
        }
        assert forall|x: Seq<u8>| #[trigger] in_scope(p, x, k, t) implies pending(
            x,
            vars@,
            k,
            k,
            0u8,
            Flow::Normal,
        ) by {
            assert(x.subrange(0, k) == vars@.subrange(0, k));
        }
        lemma_pow2_pos((n - k) as nat);
    }

    loop
        invariant
            fixed.wf(),
            p == fixed.pv(),
            shared.problem() == p,
            n == p.n(),
            m == p.m(),
            n_exec == n,
            k == start as int,
            t == tree_index as int,
            0 <= k < n,
            branch == 0 || branch == 1,
            !(st is Terminate) ==> k <= var_index < n,
            vars@.len() == n,
            is_bits(vars@),
            vars@.subrange(0, k) == prefix_bits(t, start as nat),
            accumulator@.len() == m,
            st is Normal ==> forall|v: int| var_index <= v < n ==> vars@[v] == 0,
            st is Backtrack ==> forall|v: int| var_index < v < n ==> vars@[v] == 0,
            !(st is Terminate) ==> objective == objective_upto(
                p,
                vars@,
                applied_depth(st, var_index as int),
            ),
            !(st is Terminate) ==> forall|c: int|
                0 <= c < m ==> accumulator@[c] == lhs_upto(
                    p,
                    vars@,
                    c,
                    applied_depth(st, var_index as int),
                ) - p.rhs[c],
            best == i64::MAX ==> solution@.len() == 0,
            best != i64::MAX ==> feasible(p, solution@) && objective_value(p, solution@) == best
                && solution@.subrange(0, k) == prefix_bits(t, start as nat),
            count >= 1 || st is Normal,
            forall|x: Seq<u8>| #[trigger]
                in_scope(p, x, k, t) ==> best <= objective_value(p, x) || seed <= objective_value(
                    p,
                    x,
                ) || pending(x, vars@, k, var_index as int, branch, st),
            st is Terminate ==> forall|x: Seq<u8>| #[trigger]
                in_scope(p, x, k, t) ==> best <= objective_value(p, x) || seed <= objective_value(
                    p,
                    x,
                ),
            count as int + nodes_left(vars@, n, k, var_index as int, branch, st) <= 2 * pow2(
                (n - k) as nat,
            ),
            0 <= nodes_left(vars@, n, k, var_index as int, branch, st),
        ensures
            best == i64::MAX ==> solution@.len() == 0,
            best != i64::MAX ==> feasible(p, solution@) && objective_value(p, solution@) == best
                && solution@.subrange(0, k) == prefix_bits(t, start as nat),
            forall|x: Seq<u8>| #[trigger]
                in_scope(p, x, k, t) ==> best <= objective_value(p, x) || seed <= objective_value(
                    p,
                    x,
                ),
            1 <= count as int <= 2 * pow2((n - k) as nat),
        decreases measure(vars@, n, k, var_index as int, branch, st),
    {
        match st {
            Flow::Terminate => {
                break ;
            },
            Flow::Backtrack => {
                let ghost d = var_index as int;
                let ghost vars_head = vars@;
                if vars[var_index] == 1 {
                    if var_index == start {
                        proof {
                            assert forall|x: Seq<u8>| #[trigger]
                                in_scope(p, x, k, t) implies best <= objective_value(p, x) || seed
                                <= objective_value(p, x) || pending(
                                x,
                                vars@,
                                k,
                                d,
                                branch,
                                Flow::Terminate,
                            ) by {
                                if !(best <= objective_value(p, x) || seed <= objective_value(
                                    p,
                                    x,
                                )) {
                                    assert(pending(x, vars_head, k, d, branch, Flow::Backtrack));
                                    let j = choose|j: int|
                                        open_one(x, vars_head, k, d, Flow::Backtrack, j);
                                    assert(j == k);
                                    assert(false);
                                }
                            }
                            lemma_pend_weight_nonneg(vars@, n, k, d, n + 2);
                            lemma_pend_weight_nonneg(vars@, n, k, d, 1);
                            assert forall|x: Seq<u8>| #[trigger]
                                in_scope(p, x, k, t) implies best <= objective_value(p, x) || seed
                                <= objective_value(p, x) by {
                                assert(!pending(x, vars@, k, d, branch, Flow::Terminate));
                            }
                        }
                        st = Flow::Terminate;
                    } else {
                        proof {
                            lemma_objective_upto_bounds(p, vars@, d + 1);
                            lemma_objective_upto_bounds(p, vars@, d);
                            assert(objective_upto(p, vars@, d + 1) == objective_upto(p, vars@, d)
                                + p.coefficients[d] * (vars@[d] as int));
                            assert(p.constraints[d] =~= fixed.constraints@[d as int]@);
                        }
                        objective = objective - fixed.coefficients[var_index];
                        proof {
                            assert(vars@[d] == 1);
                            assert(objective == objective_upto(p, vars@, d));
                        }
                        for c in 0..m
                            invariant
                                fixed.wf(),
                                p == fixed.pv(),
                                m == p.m(),
                                n == p.n(),
                                k <= d < n,
                                d == var_index as int,
                                vars@ == vars_head,
                                is_bits(vars@),
                                vars@.len() == n,
                                vars@[d] == 1,
                                p.constraints[d] == fixed.constraints@[d as int]@,
                                fixed.constraints@.len() == n,
                                accumulator@.len() == m,
                                forall|cc: int|
                                    c <= cc < m ==> accumulator@[cc] == lhs_upto(
                                        p,
                                        vars@,
                                        cc,
                                        d + 1,
                                    ) - p.rhs[cc],
                                forall|cc: int|
                                    0 <= cc < c ==> accumulator@[cc] == lhs_upto(p, vars@, cc, d)
                                        - p.rhs[cc],
                        {
                            proof {
                                lemma_lhs_upto_bounds(p, vars@, c as int, d + 1);
                                lemma_lhs_upto_bounds(p, vars@, c as int, d);
                                assert(lhs_upto(p, vars@, c as int, d + 1) == lhs_upto(
                                    p,
                                    vars@,
                                    c as int,
                                    d,
                                ) + p.constraints[d][c as int] * (vars@[d] as int));
                            }
                            let updated = accumulator[c] - fixed.constraints[var_index][c];
                            accumulator.set(c, updated);
                        }
                        vars.set(var_index, 0);
                        proof {
                            lemma_objective_upto_congruence(p, vars_head, vars@, d);
                            assert forall|c: int| 0 <= c < m implies lhs_upto(p, vars_head, c, d)
                                == lhs_upto(p, vars@, c, d) by {
                                lemma_lhs_upto_congruence(p, vars_head, vars@, c, d);
                            }
                            assert(objective == objective_upto(p, vars@, d));
                            assert(forall|c: int|
                                0 <= c < m ==> accumulator@[c] == lhs_upto(p, vars@, c, d)
                                    - p.rhs[c]);
                            assert forall|x: Seq<u8>| #[trigger]
                                in_scope(p, x, k, t) implies best <= objective_value(p, x) || seed
                                <= objective_value(p, x) || pending(
                                x,
                                vars@,
                                k,
                                d - 1,
                                branch,
                                Flow::Backtrack,
                            ) by {
                                if !(best <= objective_value(p, x) || seed <= objective_value(
                                    p,
                                    x,
                                )) {
                                    assert(pending(x, vars_head, k, d, branch, Flow::Backtrack));
                                    let j = choose|j: int|
                                        open_one(x, vars_head, k, d, Flow::Backtrack, j);
                                    assert(j <= d - 1);
                                    assert(x.subrange(0, j) =~= vars@.subrange(0, j));
                                    assert(open_one(x, vars@, k, d - 1, Flow::Backtrack, j));
                                }
                            }
                            lemma_pend_weight_congruence(vars_head, vars@, n, k, d - 1, n + 2);
                            lemma_pend_weight_congruence(vars_head, vars@, n, k, d - 1, 1);
                            lemma_pend_weight_nonneg(vars@, n, k, d - 1, n + 2);
                            lemma_pend_weight_nonneg(vars@, n, k, d - 1, 1);
                            assert(pend_weight(vars_head, n, k, d, n + 2) == pend_weight(
                                vars_head,
                                n,
                                k,
                                d - 1,
                                n + 2,
                            ));
                            assert(pend_weight(vars_head, n, k, d, 1) == pend_weight(
                                vars_head,
                                n,
                                k,
                                d - 1,
                                1,
                            ));
                        }
                        var_index = var_index - 1;
                    }
                } else {
                    proof {
                        assert(objective_upto(p, vars@, d + 1) == objective_upto(p, vars@, d)
                            + p.coefficients[d] * (vars@[d] as int));
                        assert forall|c: int| 0 <= c < m implies lhs_upto(p, vars@, c, d + 1)
                            == lhs_upto(p, vars@, c, d) by {
                            assert(lhs_upto(p, vars@, c, d + 1) == lhs_upto(p, vars@, c, d)
                                + p.constraints[d][c] * (vars@[d] as int));
                        }
                        assert forall|x: Seq<u8>| #[trigger]
                            in_scope(p, x, k, t) implies best <= objective_value(p, x) || seed
                            <= objective_value(p, x) || pending(
                            x,
                            vars@,
                            k,
                            d,
                            1u8,
                            Flow::Normal,
                        ) by {
                            if !(best <= objective_value(p, x) || seed <= objective_value(p, x)) {
                                assert(pending(x, vars_head, k, d, branch, Flow::Backtrack));
                                let j = choose|j: int|
                                    open_one(x, vars_head, k, d, Flow::Backtrack, j);
                                if j < d {
                                    assert(open_one(x, vars@, k, d, Flow::Normal, j));
                                } else {
                                    assert(x.subrange(0, d) == vars@.subrange(0, d));
                                    assert(x[d] == 1);
                                }
                            }
                        }
                        lemma_pend_weight_nonneg(vars@, n, k, d - 1, n + 2);
                        lemma_pend_weight_nonneg(vars@, n, k, d - 1, 1);
                        lemma_sub_weight_split(n, d, n + 2);
                        lemma_sub_weight_split(n, d, 1);
                        assert(pend_weight(vars@, n, k, d, n + 2) == pend_weight(
                            vars@,
                            n,
                            k,
                            d - 1,
                            n + 2,
                        ) + sub_weight(n, d, n + 2));
                        assert(pend_weight(vars@, n, k, d, 1) == pend_weight(
                            vars@,
                            n,
                            k,
                            d - 1,
                            1,
                        ) + sub_weight(n, d, 1));
                        assert(objective == objective_upto(p, vars@, d));
                        assert(forall|c: int|
                            0 <= c < m ==> accumulator@[c] == lhs_upto(p, vars@, c, d) - p.rhs[c]);
                    }
                    branch = 1;
                    st = Flow::Normal;
                }
            },
            Flow::Normal => {
                let ghost d = var_index as int;
                let ghost vars_head = vars@;
                let ghost best_head = best;
                proof {
                    lemma_pend_weight_nonneg(vars@, n, k, d - 1, 1);
                    lemma_pend_weight_nonneg(vars@, n, k, d - 1, n + 2);
                    lemma_sub_weight_split(n, d, 1);
                    lemma_sub_weight_split(n, d, n + 2);
                    lemma_pow2_increases((n - k) as nat, 60);
                    crate::model::lemma_pow2_cap();
                }
                count = count + 1;
                if branch == 1 {
                    proof {
                        lemma_objective_upto_bounds(p, vars@, d);
                    }
                    vars.set(var_index, 1);
                    proof {
                        lemma_objective_upto_congruence(p, vars_head, vars@, d);
                        assert(objective_upto(p, vars@, d + 1) == objective_upto(p, vars@, d)
                            + p.coefficients[d] * (vars@[d] as int));
                        assert(p.constraints[d] =~= fixed.constraints@[d as int]@);
                    }
                    objective = objective + fixed.coefficients[var_index];
                    proof {
                        assert(vars@ == vars_head.update(d, 1u8));
                        assert(vars@[d] == 1);
                        assert(p.coefficients == fixed.coefficients@);
                        assert(objective_upto(p, vars_head, d) == objective_upto(p, vars@, d));
                        assert(objective == objective_upto(p, vars@, d) + p.coefficients[d]);
                        assert(objective == objective_upto(p, vars@, d + 1));
                    }
                    let ghost vars_set = vars@;
                    for c in 0..m
                        invariant
                            fixed.wf(),
                            p == fixed.pv(),
                            m == p.m(),
                            n == p.n(),
                            k <= d < n,
                            d == var_index as int,
                            vars@ == vars_set,
                            is_bits(vars@),
                            vars@.len() == n,
                            vars@[d] == 1,
                            forall|v: int| 0 <= v < d ==> vars@[v] == vars_head[v],
                            p.constraints[d] == fixed.constraints@[d as int]@,
                            fixed.constraints@.len() == n,
                            accumulator@.len() == m,
                            forall|cc: int|
                                c <= cc < m ==> accumulator@[cc] == lhs_upto(p, vars_head, cc, d)
                                    - p.rhs[cc],
                            forall|cc: int|
                                0 <= cc < c ==> accumulator@[cc] == lhs_upto(p, vars@, cc, d + 1)
                                    - p.rhs[cc],
                    {
                        proof {
                            lemma_lhs_upto_congruence(p, vars_head, vars@, c as int, d);
                            lemma_lhs_upto_bounds(p, vars@, c as int, d);
                            assert(lhs_upto(p, vars@, c as int, d + 1) == lhs_upto(
                                p,
                                vars@,
                                c as int,
                                d,
                            ) + p.constraints[d][c as int] * (vars@[d] as int));
                        }
                        let updated = accumulator[c] + fixed.constraints[var_index][c];
                        accumulator.set(c, updated);
                    }
                    proof {
                        lemma_pend_weight_congruence(vars_head, vars@, n, k, d - 1, n + 2);
                        lemma_pend_weight_congruence(vars_head, vars@, n, k, d - 1, 1);
                    }
                    if objective >= best || objective >= seed {
                        proof {
                            assert forall|x: Seq<u8>| #[trigger]
                                in_scope(p, x, k, t) implies best <= objective_value(p, x) || seed
                                <= objective_value(p, x) || pending(
                                x,
                                vars@,
                                k,
                                d,
                                branch,
                                Flow::Backtrack,
                            ) by {
                                if !(best <= objective_value(p, x) || seed <= objective_value(
                                    p,
                                    x,
                                )) {
                                    assert(pending(x, vars_head, k, d, 1u8, Flow::Normal));
                                    if x.subrange(0, d) == vars_head.subrange(0, d) && x[d] == 1 {
                                        assert forall|v: int| 0 <= v < d + 1 implies x[v]
                                            == vars@[v] by {
                                            if v < d {
                                                assert(x.subrange(0, d)[v] == vars_head.subrange(
                                                    0,
                                                    d,
                                                )[v]);
                                            }
                                        }
                                        lemma_completion_obj_lb(p, x, vars@, d + 1);
                                        assert(false);
                                    } else {
                                        let j = choose|j: int|
                                            open_one(x, vars_head, k, d, Flow::Normal, j);
                                        assert(x.subrange(0, j) =~= vars@.subrange(0, j));
                                        assert(open_one(x, vars@, k, d, Flow::Backtrack, j));
                                    }
                                }
                            }
                            assert(pend_weight(vars@, n, k, d, n + 2) == pend_weight(
                                vars@,
                                n,
                                k,
                                d - 1,
                                n + 2,
                            ));
                            assert(pend_weight(vars@, n, k, d, 1) == pend_weight(
                                vars@,
                                n,
                                k,
                                d - 1,
                                1,
                            ));
                        }
                        st = Flow::Backtrack;
                    } else {
                        let feas = all_nonneg_values(&accumulator);
                        if feas {
                            proof {
                                lemma_acc_feasible(p, vars@, accumulator@, d + 1);
                                crate::model::lemma_objective_zero_tail(p, vars@, d + 1);
                            }
                            best = objective;
                            solution = copy_bits(&vars);
                            shared.offer(best, &solution);
                            proof {
                                assert(feasible(p, solution@) && objective_value(p, solution@)
                                    == best);
                                assert(solution@.subrange(0, k) == prefix_bits(t, start as nat));
                                assert forall|x: Seq<u8>| #[trigger]
                                    in_scope(p, x, k, t) implies best <= objective_value(p, x)
                                    || seed <= objective_value(p, x) || pending(
                                    x,
                                    vars@,
                                    k,
                                    d,
                                    branch,
                                    Flow::Backtrack,
                                ) by {
                                    if !(best <= objective_value(p, x) || seed <= objective_value(
                                        p,
                                        x,
                                    )) {
                                        assert(best <= best_head);
                                        assert(pending(x, vars_head, k, d, 1u8, Flow::Normal));
                                        if x.subrange(0, d) == vars_head.subrange(0, d) && x[d]
                                            == 1 {
                                            assert forall|v: int| 0 <= v < d + 1 implies x[v]
                                                == vars@[v] by {
                                                if v < d {
                                                    assert(x.subrange(0, d)[v]
                                                        == vars_head.subrange(0, d)[v]);
                                                }
                                            }
                                            lemma_completion_obj_lb(p, x, vars@, d + 1);
                                            assert(false);
                                        } else {
                                            let j = choose|j: int|
                                                open_one(x, vars_head, k, d, Flow::Normal, j);
                                            assert(x.subrange(0, j) =~= vars@.subrange(0, j));
                                            assert(open_one(x, vars@, k, d, Flow::Backtrack, j));
                                        }
                                    }
                                }
                                assert(pend_weight(vars@, n, k, d, n + 2) == pend_weight(
                                    vars@,
                                    n,
                                    k,
                                    d - 1,
                                    n + 2,
                                ));
                                assert(pend_weight(vars@, n, k, d, 1) == pend_weight(
                                    vars@,
                                    n,
                                    k,
                                    d - 1,
                                    1,
                                ));
                            }
                            st = Flow::Backtrack;
                        } else {
                            proof {
                                assert forall|x: Seq<u8>| #[trigger]
                                    in_scope(p, x, k, t) implies best <= objective_value(p, x)
                                    || seed <= objective_value(p, x) || pending(
                                    x,
                                    vars@,
                                    k,
                                    d,
                                    branch,
                                    Flow::Normal,
                                ) by {
                                    if !(best <= objective_value(p, x) || seed <= objective_value(
                                        p,
                                        x,
                                    )) {
                                        assert(pending(x, vars_head, k, d, 1u8, Flow::Normal));
                                        if x.subrange(0, d) == vars_head.subrange(0, d) && x[d]
                                            == 1 {
                                            assert(x.subrange(0, d) =~= vars@.subrange(0, d));
                                        } else {
                                            let j = choose|j: int|
                                                open_one(x, vars_head, k, d, Flow::Normal, j);
                                            assert(x.subrange(0, j) =~= vars@.subrange(0, j));
                                            assert(open_one(x, vars@, k, d, Flow::Normal, j));
                                        }
                                    }
                                }
                            }
                            let step = descend_or_backtrack(
                                fixed,
                                &accumulator,
                                var_index,
                                branch,
                                Ghost(k),
                                Ghost(t),
                                Ghost(vars@),
                                Ghost(best),
                                Ghost(seed),
                            );
                            var_index = step.0;
                            branch = step.1;
                            st = step.2;
                        }
                    }
                } else {
                    proof {
                        assert(objective_upto(p, vars@, d + 1) == objective_upto(p, vars@, d)
                            + p.coefficients[d] * (vars@[d] as int));
                        assert forall|c: int| 0 <= c < m implies lhs_upto(p, vars@, c, d + 1)
                            == lhs_upto(p, vars@, c, d) by {
                            assert(lhs_upto(p, vars@, c, d + 1) == lhs_upto(p, vars@, c, d)
                                + p.constraints[d][c] * (vars@[d] as int));
                        }
                    }
                    let feas = all_nonneg_values(&accumulator);
                    if feas {
                        proof {
                            lemma_acc_feasible(p, vars@, accumulator@, d);
                            crate::model::lemma_objective_zero_tail(p, vars@, d);
                            lemma_objective_upto_bounds(p, vars@, d);
                        }
                        if objective < best {
                            best = objective;
                            solution = copy_bits(&vars);
                            shared.offer(best, &solution);
                            proof {
                                assert(solution@.subrange(0, k) == prefix_bits(t, start as nat));
                            }
                        }
                        proof {
                            assert forall|x: Seq<u8>| #[trigger]
                                in_scope(p, x, k, t) implies best <= objective_value(p, x) || seed
                                <= objective_value(p, x) || pending(
                                x,
                                vars@,
                                k,
                                d,
                                branch,
                                Flow::Backtrack,
                            ) by {
                                if !(best <= objective_value(p, x) || seed <= objective_value(
                                    p,
                                    x,
                                )) {
                                    assert(best <= objective);
                                    assert(pending(x, vars_head, k, d, 0u8, Flow::Normal));
                                    if x.subrange(0, d) == vars_head.subrange(0, d) {
                                        assert forall|v: int| 0 <= v < d implies x[v]
                                            == vars@[v] by {
                                            assert(x.subrange(0, d)[v] == vars_head.subrange(
                                                0,
                                                d,
                                            )[v]);
                                        }
                                        lemma_completion_obj_lb(p, x, vars@, d);
                                        assert(false);
                                    } else {
                                        let j = choose|j: int|
                                            open_one(x, vars_head, k, d, Flow::Normal, j);
                                        assert(open_one(x, vars@, k, d, Flow::Backtrack, j));
                                    }
                                }
                            }
                            assert(pend_weight(vars@, n, k, d, n + 2) == pend_weight(
                                vars@,
                                n,
                                k,
                                d - 1,
                                n + 2,
                            ) + sub_weight(n, d, n + 2));
                            assert(pend_weight(vars@, n, k, d, 1) == pend_weight(
                                vars@,
                                n,
                                k,
                                d - 1,
                                1,
                            ) + sub_weight(n, d, 1));
                        }
                        st = Flow::Backtrack;
                    } else {
                        let step = descend_or_backtrack(
                            fixed,
                            &accumulator,
                            var_index,
                            branch,
                            Ghost(k),
                            Ghost(t),
                            Ghost(vars@),
                            Ghost(best),
                            Ghost(seed),
                        );
                        var_index = step.0;
                        branch = step.1;
                        st = step.2;
                    }
                }
            },
        }
    }
    (best, count, solution)
}

} // verus!
