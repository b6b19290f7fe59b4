//! Mathematical model of a binary integer program in minimization standard
//! form: nonnegative objective coefficients, all constraints `>=`, all
//! variables zero/one.  The solver's contracts are stated over this model.
use vstd::prelude::*;

verus! {

/// Largest number of decision variables the solver accepts.  The decision
/// tree has `2^(n+1)` nodes, so node counters stay far below `u64::MAX`.
pub const MAX_VARS: usize = 60;

/// Largest magnitude of an objective or constraint coefficient.
pub const MAX_ENTRY: i64 = 0x8000_0000;

/// Largest magnitude of a right-hand side.
pub const MAX_RHS: i64 = 0x20_0000_0000;

/// Abstract view of the immutable problem data: objective coefficients,
/// the constraint matrix stored transposed (`constraints[v][c]` is the
/// contribution of variable `v` to constraint row `c`), and the
/// right-hand sides.
pub struct ProblemView {
    pub coefficients: Seq<i64>,
    pub constraints: Seq<Seq<i64>>,
    pub rhs: Seq<i64>,
}

impl ProblemView {
    /// Number of decision variables (tree depth).
    pub open spec fn n(self) -> int {
        self.coefficients.len() as int
    }

    /// Number of constraint rows.
    pub open spec fn m(self) -> int {
        self.rhs.len() as int
    }

    /// Shape and range conditions under which the solver's arithmetic
    /// cannot overflow: a nonempty, bounded problem with a dense
    /// transposed matrix and nonnegative objective coefficients.
    pub open spec fn wf(self) -> bool {
        &&& 1 <= self.n() <= MAX_VARS
        &&& self.constraints.len() == self.n()
        &&& forall|v: int| 0 <= v < self.n() ==> #[trigger] self.constraints[v].len() == self.m()
        &&& forall|v: int|
            0 <= v < self.n() ==> 0 <= #[trigger] self.coefficients[v] <= MAX_ENTRY
        &&& forall|v: int, c: int|
            0 <= v < self.n() && 0 <= c < self.m() ==> -MAX_ENTRY
                <= #[trigger] self.constraints[v][c] <= MAX_ENTRY
        &&& forall|c: int| 0 <= c < self.m() ==> -MAX_RHS <= #[trigger] self.rhs[c] <= MAX_RHS
    }
}

/// `2^k`, defined by unfolding so that induction proofs step cleanly.
pub open spec fn pow2(k: nat) -> int
    decreases k,
{
    if k == 0 {
        1
    } else {
        2 * pow2((k - 1) as nat)
    }
}

/// Every entry of `x` is zero or one.
pub open spec fn is_bits(x: Seq<u8>) -> bool {
    forall|i: int| 0 <= i < x.len() ==> x[i] == 0 || x[i] == 1
}

/// `x` assigns zero or one to each of the problem's variables.
pub open spec fn is_assignment(p: ProblemView, x: Seq<u8>) -> bool {
    &&& x.len() == p.n()
    &&& is_bits(x)
}

/// Objective restricted to the first `upto` variables:
/// `sum_{v < upto} coefficients[v] * x[v]`.
pub open spec fn objective_upto(p: ProblemView, x: Seq<u8>, upto: int) -> int
    decreases upto,
{
    if upto <= 0 {
        0
    } else {
        objective_upto(p, x, upto - 1) + p.coefficients[upto - 1] * (x[upto - 1] as int)
    }
}

/// Full objective value `sum_v coefficients[v] * x[v]`.
pub open spec fn objective_value(p: ProblemView, x: Seq<u8>) -> int {
    objective_upto(p, x, p.n())
}

/// Left-hand side of constraint row `c` restricted to the first `upto`
/// variables: `sum_{v < upto} constraints[v][c] * x[v]`.
pub open spec fn lhs_upto(p: ProblemView, x: Seq<u8>, c: int, upto: int) -> int
    decreases upto,
{
    if upto <= 0 {
        0
    } else {
        lhs_upto(p, x, c, upto - 1) + p.constraints[upto - 1][c] * (x[upto - 1] as int)
    }
}

/// Full left-hand side of constraint row `c`.
pub open spec fn lhs_value(p: ProblemView, x: Seq<u8>, c: int) -> int {
    lhs_upto(p, x, c, p.n())
}

/// `x` meets every constraint row: `lhs >= rhs` throughout.
pub open spec fn satisfies(p: ProblemView, x: Seq<u8>) -> bool {
    forall|c: int| 0 <= c < p.m() ==> lhs_value(p, x, c) >= p.rhs[c]
}

/// Feasible point of the problem.
pub open spec fn feasible(p: ProblemView, x: Seq<u8>) -> bool {
    is_assignment(p, x) && satisfies(p, x)
}

/// Positive part of a coefficient.
pub open spec fn max0(a: i64) -> int {
    if a > 0 {
        a as int
    } else {
        0
    }
}

/// Sum of the positive parts of column `c` of a transposed constraint
/// matrix over rows `from..`: the best case any completion of depth
/// `from - 1` can still add to constraint row `c`.
pub open spec fn col_suffix_pos(cons: Seq<Seq<i64>>, c: int, from: int) -> int
    decreases cons.len() - from,
{
    if from >= cons.len() {
        0
    } else {
        max0(cons[from][c]) + col_suffix_pos(cons, c, from + 1)
    }
}

/// The same sum read off a problem view.
pub open spec fn suffix_pos(p: ProblemView, c: int, from: int) -> int {
    col_suffix_pos(p.constraints, c, from)
}

/// `x` extends the partial assignment `pre` on the first `pre.len()`
/// variables.
pub open spec fn extends(x: Seq<u8>, pre: Seq<u8>) -> bool {
    x.subrange(0, pre.len() as int) == pre
}

/// Least objective value over all feasible completions of the partial
/// assignment `pre`, or `i64::MAX` when none is feasible.
pub open spec fn subtree_best(p: ProblemView, pre: Seq<u8>) -> int
    decreases p.n() - pre.len(),
{
    if pre.len() >= p.n() {
        if satisfies(p, pre) {
            objective_value(p, pre)
        } else {
            i64::MAX as int
        }
    } else {
        let zero = subtree_best(p, pre.push(0));
        let one = subtree_best(p, pre.push(1));
        if zero <= one {
            zero
        } else {
            one
        }
    }
}

/// Least objective value over all feasible assignments, or `i64::MAX`
/// when the problem is infeasible.
pub open spec fn optimum(p: ProblemView) -> int {
    subtree_best(p, Seq::empty())
}

/// Smaller of two values.
pub open spec fn min_int(a: int, b: int) -> int {
    if a <= b {
        a
    } else {
        b
    }
}

/// What one `solve` call leaves in `best`: the optimum, unless the
/// caller seeded `best` with a value at least as small.
pub open spec fn solve_best(p: ProblemView, seed: i64) -> int {
    min_int(seed as int, optimum(p))
}

/// Upper bound on the partial objective of any assignment of a
/// well-formed problem.
pub proof fn lemma_objective_upto_bounds(p: ProblemView, x: Seq<u8>, upto: int)
    requires
        p.wf(),
        is_bits(x),
        upto <= x.len(),
        0 <= upto <= p.n(),
    ensures
        0 <= objective_upto(p, x, upto) <= upto * (MAX_ENTRY as int),
    decreases upto,
{
    if upto > 0 {
        lemma_objective_upto_bounds(p, x, upto - 1);
    }
}

/// Partial objective sums agree on assignments that agree below `upto`.
pub proof fn lemma_objective_upto_congruence(p: ProblemView, x: Seq<u8>, y: Seq<u8>, upto: int)
    requires
        forall|v: int| 0 <= v < upto ==> x[v] == y[v],
    ensures
        objective_upto(p, x, upto) == objective_upto(p, y, upto),
    decreases upto,
{
    if upto > 0 {
        lemma_objective_upto_congruence(p, x, y, upto - 1);
    }
}

/// Partial left-hand sides agree on assignments that agree below `upto`.
pub proof fn lemma_lhs_upto_congruence(p: ProblemView, x: Seq<u8>, y: Seq<u8>, c: int, upto: int)
    requires
        forall|v: int| 0 <= v < upto ==> x[v] == y[v],
    ensures
        lhs_upto(p, x, c, upto) == lhs_upto(p, y, c, upto),
    decreases upto,
{
    if upto > 0 {
        lemma_lhs_upto_congruence(p, x, y, c, upto - 1);
    }
}

/// With nonnegative coefficients the partial objective only grows as
/// more variables are taken in.
pub proof fn lemma_objective_upto_monotone(p: ProblemView, x: Seq<u8>, a: int, b: int)
    requires
        p.wf(),
        is_bits(x),
        x.len() == p.n(),
        0 <= a <= b <= p.n(),
    ensures
        objective_upto(p, x, a) <= objective_upto(p, x, b),
    decreases b - a,
{
    if a < b {
        lemma_objective_upto_monotone(p, x, a, b - 1);
    }
}

/// Variables held at zero beyond `upto` contribute nothing: the full sum
/// equals the partial sum.
pub proof fn lemma_objective_zero_tail(p: ProblemView, x: Seq<u8>, upto: int)
    requires
        0 <= upto <= p.n(),
        x.len() == p.n(),
        forall|v: int| upto <= v < p.n() ==> x[v] == 0,
    ensures
        objective_value(p, x) == objective_upto(p, x, upto),
    decreases p.n() - upto,
{
    if upto < p.n() {
        lemma_objective_zero_tail(p, x, upto + 1);
    }
}

/// Same for each constraint row.
pub proof fn lemma_lhs_zero_tail(p: ProblemView, x: Seq<u8>, c: int, upto: int)
    requires
        0 <= upto <= p.n(),
        x.len() == p.n(),
        forall|v: int| upto <= v < p.n() ==> x[v] == 0,
    ensures
        lhs_value(p, x, c) == lhs_upto(p, x, c, upto),
    decreases p.n() - upto,
{
    if upto < p.n() {
        lemma_lhs_zero_tail(p, x, c, upto + 1);
    }
}

/// Magnitude bound on partial left-hand sides.
pub proof fn lemma_lhs_upto_bounds(p: ProblemView, x: Seq<u8>, c: int, upto: int)
    requires
        p.wf(),
        is_bits(x),
        upto <= x.len(),
        0 <= c < p.m(),
        0 <= upto <= p.n(),
    ensures
        -(upto * (MAX_ENTRY as int)) <= lhs_upto(p, x, c, upto) <= upto * (MAX_ENTRY as int),
    decreases upto,
{
    if upto > 0 {
        lemma_lhs_upto_bounds(p, x, c, upto - 1);
    }
}

/// Magnitude bound on the cumulative suffix sums.
pub proof fn lemma_suffix_pos_bounds(p: ProblemView, c: int, from: int)
    requires
        p.wf(),
        0 <= c < p.m(),
        0 <= from <= p.n(),
    ensures
        0 <= suffix_pos(p, c, from) <= (p.n() - from) * (MAX_ENTRY as int),
    decreases p.n() - from,
{
    if from < p.n() {
        lemma_suffix_pos_bounds(p, c, from + 1);
    }
}

/// Magnitude bound on the cumulative suffix sums of a bare matrix.
pub proof fn lemma_col_suffix_pos_bounds(cons: Seq<Seq<i64>>, c: int, from: int)
    requires
        cons.len() <= MAX_VARS,
        forall|v: int| 0 <= v < cons.len() ==> -MAX_ENTRY <= #[trigger] cons[v][c] <= MAX_ENTRY,
        0 <= from <= cons.len(),
    ensures
        0 <= col_suffix_pos(cons, c, from) <= (cons.len() - from) * (MAX_ENTRY as int),
    decreases cons.len() - from,
{
    if from < cons.len() {
        lemma_col_suffix_pos_bounds(cons, c, from + 1);
    }
}

/// No completion can add more to a row than the positive parts of the
/// remaining column: the cumulative bound is sound.
pub proof fn lemma_lhs_suffix_bound(p: ProblemView, x: Seq<u8>, c: int, from: int)
    requires
        p.wf(),
        is_bits(x),
        x.len() == p.n(),
        0 <= c < p.m(),
        0 <= from <= p.n(),
    ensures
        lhs_value(p, x, c) <= lhs_upto(p, x, c, from) + suffix_pos(p, c, from),
    decreases p.n() - from,
{
    if from < p.n() {
        lemma_lhs_suffix_bound(p, x, c, from + 1);
        assert(max0(p.constraints[from][c]) >= p.constraints[from][c] * (x[from] as int));
    }
}

/// The subtree minimum really is a lower bound: every feasible completion
/// of `pre` has objective at least `subtree_best(p, pre)`.
pub proof fn lemma_subtree_best_lb(p: ProblemView, pre: Seq<u8>, x: Seq<u8>)
    requires
        p.wf(),
        pre.len() <= p.n(),
        is_assignment(p, x),
        satisfies(p, x),
        extends(x, pre),
    ensures
        subtree_best(p, pre) <= objective_value(p, x),
    decreases p.n() - pre.len(),
{
    if pre.len() >= p.n() {
        assert(pre =~= x);
    } else {
        let b = x[pre.len() as int];
        let pre2 = pre.push(b);
        assert(extends(x, pre2)) by {
            assert(x.subrange(0, pre2.len() as int) =~= pre2);
        }
        lemma_subtree_best_lb(p, pre2, x);
    }
}

/// A finite subtree minimum is witnessed by a feasible completion, and the
/// infinite one only arises when no completion is feasible.
pub proof fn lemma_subtree_best_witness(p: ProblemView, pre: Seq<u8>)
    requires
        p.wf(),
        is_bits(pre),
        pre.len() <= p.n(),
    ensures
        subtree_best(p, pre) == i64::MAX as int || exists|x: Seq<u8>|
            {
                &&& is_assignment(p, x)
                &&& satisfies(p, x)
                &&& extends(x, pre)
                &&& objective_value(p, x) == subtree_best(p, pre)
            },
    decreases p.n() - pre.len(),
{
    if pre.len() >= p.n() {
        if satisfies(p, pre) {
            lemma_objective_upto_bounds(p, pre, p.n());
            assert(p.n() * (MAX_ENTRY as int) <= 60 * (MAX_ENTRY as int));
            assert(extends(pre, pre)) by {
                assert(pre.subrange(0, pre.len() as int) =~= pre);
            }
            assert(is_assignment(p, pre) && satisfies(p, pre) && extends(pre, pre)
                && objective_value(p, pre) == subtree_best(p, pre));
        }
    } else {
        lemma_subtree_best_witness(p, pre.push(0));
        lemma_subtree_best_witness(p, pre.push(1));
        let zero = subtree_best(p, pre.push(0));
        let one = subtree_best(p, pre.push(1));
        if subtree_best(p, pre) != i64::MAX as int {
            if zero <= one {
                let x = choose|x: Seq<u8>|
                    {
                        &&& is_assignment(p, x)
                        &&& satisfies(p, x)
                        &&& extends(x, pre.push(0))
                        &&& objective_value(p, x) == zero
                    };
                assert(extends(x, pre)) by {
                    assert(x.subrange(0, pre.len() as int) =~= pre);
                }
                assert(is_assignment(p, x) && satisfies(p, x) && extends(x, pre)
                    && objective_value(p, x) == subtree_best(p, pre));
            } else {
                let x = choose|x: Seq<u8>|
                    {
                        &&& is_assignment(p, x)
                        &&& satisfies(p, x)
                        &&& extends(x, pre.push(1))
                        &&& objective_value(p, x) == one
                    };
                assert(extends(x, pre)) by {
                    assert(x.subrange(0, pre.len() as int) =~= pre);
                }
                assert(is_assignment(p, x) && satisfies(p, x) && extends(x, pre)
                    && objective_value(p, x) == subtree_best(p, pre));
            }
        }
    }
}

/// Branch choices named by the low `k` bits of `t`, least significant
/// first: bit `i` of `t` is the branch taken at depth `i`.
pub open spec fn prefix_bits(t: int, k: nat) -> Seq<u8>
    decreases k,
{
    if k == 0 {
        Seq::empty()
    } else {
        seq![if t % 2 == 1 { 1u8 } else { 0u8 }] + prefix_bits(t / 2, (k - 1) as nat)
    }
}

/// Index of the subtree at depth `k` that contains `x`: the first `k`
/// branch choices of `x` read as a binary number, least significant first.
pub open spec fn prefix_index(x: Seq<u8>, k: int) -> int
    decreases k,
{
    if k <= 0 {
        0
    } else {
        prefix_index(x, k - 1) + (x[k - 1] as int) * pow2((k - 1) as nat)
    }
}

pub proof fn lemma_prefix_bits_len(t: int, k: nat)
    ensures
        prefix_bits(t, k).len() == k,
        is_bits(prefix_bits(t, k)),
    decreases k,
{
    if k > 0 {
        lemma_prefix_bits_len(t / 2, (k - 1) as nat);
    }
}

pub proof fn lemma_pow2_pos(k: nat)
    ensures
        pow2(k) >= 1,
    decreases k,
{
    if k > 0 {
        lemma_pow2_pos((k - 1) as nat);
    }
}

pub proof fn lemma_pow2_increases(a: nat, b: nat)
    requires
        a <= b,
    ensures
        pow2(a) <= pow2(b),
    decreases b,
{
    if a < b {
        lemma_pow2_increases(a, (b - 1) as nat);
        lemma_pow2_pos((b - 1) as nat);
    }
}

/// Numeric value of the largest exponent the solver can meet: with at
/// most `MAX_VARS` variables every node count fits comfortably in `u64`.
pub proof fn lemma_pow2_cap()
    ensures
        pow2(60) == 0x1000_0000_0000_0000,
{
    reveal_with_fuel(pow2, 62);
}

/// `pow2` turns addition of exponents into multiplication.
pub proof fn lemma_pow2_adds(a: nat, b: nat)
    ensures
        pow2(a + b) == pow2(a) * pow2(b),
    decreases a,
{
    if a > 0 {
        lemma_pow2_adds((a - 1) as nat, b);
        assert(pow2(a + b) == 2 * pow2((a + b - 1) as nat));
        assert(2 * (pow2((a - 1) as nat) * pow2(b)) == (2 * pow2((a - 1) as nat)) * pow2(b))
            by (nonlinear_arith);
    }
}

pub proof fn lemma_prefix_index_bounds(x: Seq<u8>, k: int)
    requires
        is_bits(x),
        0 <= k <= x.len(),
    ensures
        0 <= prefix_index(x, k) < pow2(k as nat),
    decreases k,
{
    if k > 0 {
        lemma_prefix_index_bounds(x, k - 1);
        lemma_pow2_pos((k - 1) as nat);
    }
}

/// Splitting off the top bit: the bits of `a + b * 2^(k-1)` are the bits
/// of `a` followed by `b`.
proof fn lemma_prefix_bits_decompose(a: int, b: u8, k: nat)
    requires
        k >= 1,
        0 <= a < pow2((k - 1) as nat),
        b == 0 || b == 1,
    ensures
        prefix_bits(a + (b as int) * pow2((k - 1) as nat), k) == prefix_bits(
            a,
            (k - 1) as nat,
        ).push(b),
    decreases k,
{
    let t = a + (b as int) * pow2((k - 1) as nat);
    if k == 1 {
        assert(a == 0);
        assert(t == b as int);
        assert(prefix_bits(t, 1) =~= prefix_bits(0, 0).push(b));
    } else {
        let h = (b as int) * pow2((k - 2) as nat);
        assert(pow2((k - 1) as nat) == 2 * pow2((k - 2) as nat));
        assert(t == a + 2 * h);
        assert(t % 2 == a % 2 && t / 2 == a / 2 + h) by (nonlinear_arith)
            requires
                t == a + 2 * h,
                a >= 0,
                h >= 0,
        ;
        assert(0 <= a / 2 < pow2((k - 2) as nat)) by (nonlinear_arith)
            requires
                0 <= a < 2 * pow2((k - 2) as nat),
        ;
        lemma_prefix_bits_decompose(a / 2, b, (k - 1) as nat);
        assert(prefix_bits(t, k) =~= prefix_bits(a, (k - 1) as nat).push(b));
    }
}

/// Reading the first `k` branches of `x` as a number and expanding that
/// number back into branches is the identity: every assignment lies in
/// exactly the subtree its low bits name.
pub proof fn lemma_prefix_bits_of_index(x: Seq<u8>, k: int)
    requires
        is_bits(x),
        0 <= k <= x.len(),
    ensures
        prefix_bits(prefix_index(x, k), k as nat) == x.subrange(0, k),
    decreases k,
{
    if k == 0 {
        assert(prefix_bits(0, 0) =~= x.subrange(0, 0));
    } else {
        lemma_prefix_index_bounds(x, k - 1);
        lemma_prefix_bits_of_index(x, k - 1);
        lemma_prefix_bits_decompose(prefix_index(x, k - 1), x[k - 1], k as nat);
        assert(x.subrange(0, k - 1).push(x[k - 1]) =~= x.subrange(0, k));
    }
}

/// Finite objectives stay strictly below the infeasibility sentinel.
pub proof fn lemma_objective_below_sentinel(p: ProblemView, x: Seq<u8>)
    requires
        p.wf(),
        is_assignment(p, x),
    ensures
        0 <= objective_value(p, x) < i64::MAX as int,
{
    lemma_objective_upto_bounds_top(p, x);
}

/// Bound on the full objective of any assignment.
pub proof fn lemma_objective_upto_bounds_top(p: ProblemView, x: Seq<u8>)
    requires
        p.wf(),
        is_assignment(p, x),
    ensures
        0 <= objective_value(p, x) <= (MAX_VARS as int) * (MAX_ENTRY as int),
{
    lemma_objective_upto_bounds_rec(p, x, p.n());
}

proof fn lemma_objective_upto_bounds_rec(p: ProblemView, x: Seq<u8>, upto: int)
    requires
        p.wf(),
        is_bits(x),
        x.len() == p.n(),
        0 <= upto <= p.n(),
    ensures
        0 <= objective_upto(p, x, upto) <= upto * (MAX_ENTRY as int),
        upto * (MAX_ENTRY as int) <= (MAX_VARS as int) * (MAX_ENTRY as int),
    decreases upto,
{
    if upto > 0 {
        lemma_objective_upto_bounds_rec(p, x, upto - 1);
    }
}

} // verus!
