//! Normalization of a general binary program into the solver's standard
//! form: minimization, all constraints `>=`, all objective coefficients
//! nonnegative.  A maximization objective is negated; `<=` rows are
//! negated; equality rows become a pair of opposed `>=` rows; a variable
//! with a negative objective coefficient is substituted by its
//! complement, which flips its column in every row and shifts the
//! objective by a constant.
use vstd::prelude::*;

use crate::model::{
    is_bits, lhs_upto, lhs_value, objective_upto, objective_value, satisfies, ProblemView, MAX_RHS,
    MAX_VARS,
};

verus! {

/// Largest magnitude a raw coefficient or right-hand side may have;
/// normalization at most doubles coefficients and shifts right-hand
/// sides by one row sum, which stays far within the solver's bounds.
pub const MAX_RAW: i64 = 0x4000_0000;

/// Direction of one raw constraint row.
#[derive(Clone, Copy)]
pub enum ConstraintKind {
    GreaterEq,
    LessEq,
    Equal,
}

/// One raw constraint row, dense over the problem's variables.
pub struct RawConstraint {
    pub coefficients: Vec<i64>,
    pub kind: ConstraintKind,
    pub rhs: i64,
}

/// A binary program as stated by the caller, before normalization.
pub struct RawProblem {
    pub maximize: bool,
    pub objective: Vec<i64>,
    pub constraints: Vec<RawConstraint>,
}

/// The solver-ready form produced by normalization, together with the
/// data needed to interpret a solution of it in terms of the raw
/// problem: which variables were complemented and the constant the
/// objective was shifted by.
pub struct NormalizedProblem {
    pub coefficients: Vec<i64>,
    pub constraints: Vec<Vec<i64>>,
    pub rhs: Vec<i64>,
    pub flipped: Vec<bool>,
    pub shift: i64,
}

impl RawProblem {
    pub open spec fn n(&self) -> int {
        self.objective@.len() as int
    }

    pub open spec fn m(&self) -> int {
        self.constraints@.len() as int
    }

    /// Dense, bounded raw data.
    pub open spec fn wf(&self) -> bool {
        &&& 1 <= self.n() <= MAX_VARS
        &&& forall|v: int|
            0 <= v < self.n() ==> -MAX_RAW <= #[trigger] self.objective@[v] <= MAX_RAW
        &&& forall|c: int|
            0 <= c < self.m() ==> #[trigger] self.constraints@[c].coefficients@.len() == self.n()
        &&& forall|c: int, v: int|
            0 <= c < self.m() && 0 <= v < self.n() ==> -MAX_RAW
                <= #[trigger] self.constraints@[c].coefficients@[v] <= MAX_RAW
        &&& forall|c: int| 0 <= c < self.m() ==> -MAX_RAW <= #[trigger] self.constraints@[c].rhs <= MAX_RAW
    }

    /// Objective coefficient of variable `v` after the problem is turned
    /// into a minimization.
    pub open spec fn min_coeff(&self, v: int) -> int {
        if self.maximize {
            -(self.objective@[v] as int)
        } else {
            self.objective@[v] as int
        }
    }
}

impl NormalizedProblem {
    /// The normalized data as the solver's problem view.
    pub open spec fn pv(&self) -> ProblemView {
        ProblemView {
            coefficients: self.coefficients@,
            constraints: self.constraints.deep_view(),
            rhs: self.rhs@,
        }
    }
}

/// `sum_{v < upto} a[v] * x[v]`.
pub open spec fn dot(a: Seq<i64>, x: Seq<u8>, upto: int) -> int
    decreases upto,
{
    if upto <= 0 {
        0
    } else {
        dot(a, x, upto - 1) + a[upto - 1] * (x[upto - 1] as int)
    }
}

/// The raw meaning of one constraint row under assignment `x`.
pub open spec fn raw_row_ok(row: RawConstraint, x: Seq<u8>) -> bool {
    let s = dot(row.coefficients@, x, row.coefficients@.len() as int);
    match row.kind {
        ConstraintKind::GreaterEq => s >= row.rhs,
        ConstraintKind::LessEq => s <= row.rhs,
        ConstraintKind::Equal => s == row.rhs,
    }
}

/// `x` meets every raw constraint row.
pub open spec fn raw_satisfies(p: RawProblem, x: Seq<u8>) -> bool {
    forall|c: int| 0 <= c < p.m() ==> raw_row_ok(#[trigger] p.constraints@[c], x)
}

/// The raw objective value of `x`, in the problem's stated sense.
pub open spec fn raw_objective(p: RawProblem, x: Seq<u8>) -> int {
    dot(p.objective@, x, p.n())
}

/// `sum_{v < upto, fl[v]} a[v]`: the total contribution of the
/// complemented variables when they are all set to one.
pub open spec fn flip_sum(a: Seq<i64>, fl: Seq<bool>, upto: int) -> int
    decreases upto,
{
    if upto <= 0 {
        0
    } else {
        flip_sum(a, fl, upto - 1) + if fl[upto - 1] {
            a[upto - 1] as int
        } else {
            0
        }
    }
}

/// Maps a solution of the normalized problem back to the raw variables:
/// complemented variables are complemented again.
pub open spec fn denorm(y: Seq<u8>, fl: Seq<bool>) -> Seq<u8> {
    Seq::new(y.len(), |v: int| if fl[v] { (1 - y[v]) as u8 } else { y[v] })
}

/// Number of equality rows among the first `upto` raw constraints; each
/// contributes exactly one extra negated row to the normalized output.
pub open spec fn eq_count(rows: Seq<RawConstraint>, upto: int) -> int
    decreases upto,
{
    if upto <= 0 {
        0
    } else {
        eq_count(rows, upto - 1) + if rows[upto - 1].kind is Equal {
            1int
        } else {
            0
        }
    }
}

proof fn lemma_eq_count_bounds(rows: Seq<RawConstraint>, upto: int)
    requires
        0 <= upto,
    ensures
        0 <= eq_count(rows, upto) <= upto,
    decreases upto,
{
    if upto > 0 {
        lemma_eq_count_bounds(rows, upto - 1);
    }
}

/// The sign a raw row's direction gives its `>=` image: `<=` rows are
/// negated.
pub open spec fn main_sign(k: ConstraintKind) -> int {
    if k is LessEq {
        -1
    } else {
        1
    }
}

/// `x` negated when `s` is `-1`, unchanged when `s` is `1`.
pub open spec fn sign_apply(s: int, x: int) -> int {
    if s == 1 {
        x
    } else {
        -x
    }
}

/// `x` negated when the variable is complemented.
pub open spec fn flip_apply(b: bool, x: int) -> int {
    if b {
        -x
    } else {
        x
    }
}

/// How the rows of the normalized problem relate to the raw rows: row
/// `c` is the `sgn[c]`-signed image of raw row `src[c]` with the
/// complemented columns flipped, every raw row stands at its own index
/// with the sign its direction demands, and every equality row has a
/// negated partner.
pub open spec fn normalizes(
    p: RawProblem,
    r: NormalizedProblem,
    src: Seq<int>,
    sgn: Seq<int>,
    partner: Seq<int>,
) -> bool {
    let n = p.n();
    let mm = r.rhs@.len() as int;
    {
        &&& r.pv().wf()
        &&& r.coefficients@.len() == n
        &&& r.constraints@.len() == n
        &&& r.flipped@.len() == n
        &&& src.len() == mm
        &&& sgn.len() == mm
        &&& partner.len() == p.m()
        &&& p.m() <= mm
        &&& mm == p.m() + eq_count(p.constraints@, p.m())
        &&& forall|v: int| 0 <= v < n ==> #[trigger] r.flipped@[v] == (p.min_coeff(v) < 0)
        &&& forall|v: int|
            0 <= v < n ==> #[trigger] r.coefficients@[v] as int == (if p.min_coeff(v) < 0 {
                -p.min_coeff(v)
            } else {
                p.min_coeff(v)
            })
        &&& r.shift as int == flip_sum_min(p, n)
        &&& forall|c: int| 0 <= c < mm ==> 0 <= #[trigger] src[c] < p.m()
        &&& forall|c: int| 0 <= c < mm ==> #[trigger] sgn[c] == 1 || sgn[c] == -1
        &&& forall|c: int, v: int|
            0 <= c < mm && 0 <= v < n ==> #[trigger] r.constraints.deep_view()[v][c] == flip_apply(
                r.flipped@[v],
                sign_apply(sgn[c], p.constraints@[src[c]].coefficients@[v] as int),
            )
        &&& forall|c: int|
            0 <= c < mm ==> #[trigger] r.rhs@[c] as int == sign_apply(
                sgn[c],
                p.constraints@[src[c]].rhs as int,
            ) - flip_sum_row(p, src[c], sgn[c], r.flipped@, n)
        &&& forall|i: int| 0 <= i < p.m() ==> #[trigger] src[i] == i
        &&& forall|i: int| 0 <= i < p.m() ==> #[trigger] sgn[i] == main_sign(p.constraints@[i].kind)
        &&& forall|c: int| p.m() <= c < mm ==> p.constraints@[#[trigger] src[c]].kind is Equal
        &&& forall|i: int|
            0 <= i < p.m() && p.constraints@[i].kind is Equal ==> p.m() <= #[trigger] partner[i]
                < mm && src[partner[i]] == i && sgn[partner[i]] == -1
    }
}

/// The objective shift: the minimized coefficients of the complemented
/// variables, summed.
pub open spec fn flip_sum_min(p: RawProblem, upto: int) -> int
    decreases upto,
{
    if upto <= 0 {
        0
    } else {
        flip_sum_min(p, upto - 1) + if p.min_coeff(upto - 1) < 0 {
            p.min_coeff(upto - 1)
        } else {
            0
        }
    }
}

/// The right-hand-side shift of one signed raw row under the flips.
pub open spec fn flip_sum_row(p: RawProblem, i: int, s: int, fl: Seq<bool>, upto: int) -> int
    decreases upto,
{
    if upto <= 0 {
        0
    } else {
        flip_sum_row(p, i, s, fl, upto - 1) + if fl[upto - 1] {
            sign_apply(s, p.constraints@[i].coefficients@[upto - 1] as int)
        } else {
            0
        }
    }
}

proof fn lemma_flip_sum_bounds(a: Seq<i64>, fl: Seq<bool>, upto: int)
    requires
        forall|v: int| 0 <= v < upto ==> -MAX_RAW <= #[trigger] a[v] <= MAX_RAW,
        0 <= upto <= MAX_VARS,
    ensures
        -(upto * 0x4000_0000) <= flip_sum(a, fl, upto) <= upto * 0x4000_0000,
    decreases upto,
{
    assert(MAX_RAW == 0x4000_0000);
    if upto > 0 {
        lemma_flip_sum_bounds(a, fl, upto - 1);
        assert((upto - 1) * 0x4000_0000 == upto * 0x4000_0000 - 0x4000_0000) by (nonlinear_arith);
        assert(flip_sum(a, fl, upto) == flip_sum(a, fl, upto - 1) + if fl[upto - 1] {
            a[upto - 1] as int
        } else {
            0
        });
        if fl[upto - 1] {
            assert(-MAX_RAW <= a[upto - 1] <= MAX_RAW);
            assert(flip_sum(a, fl, upto - 1) - 0x4000_0000 <= flip_sum(a, fl, upto) <= flip_sum(
                a,
                fl,
                upto - 1,
            ) + 0x4000_0000);
        } else {
            assert(flip_sum(a, fl, upto) == flip_sum(a, fl, upto - 1));
        }
    }
}

proof fn lemma_flip_sum_as_min(p: RawProblem, minobj: Seq<i64>, fl: Seq<bool>, upto: int)
    requires
        forall|v: int| 0 <= v < upto ==> #[trigger] minobj[v] as int == p.min_coeff(v),
        forall|v: int| 0 <= v < upto ==> #[trigger] fl[v] == (p.min_coeff(v) < 0),
    ensures
        flip_sum(minobj, fl, upto) == flip_sum_min(p, upto),
    decreases upto,
{
    if upto > 0 {
        lemma_flip_sum_as_min(p, minobj, fl, upto - 1);
    }
}

proof fn lemma_flip_sum_as_row(p: RawProblem, a: Seq<i64>, i: int, s: int, fl: Seq<bool>, upto: int)
    requires
        forall|v: int|
            0 <= v < upto ==> #[trigger] a[v] as int == sign_apply(
                s,
                p.constraints@[i].coefficients@[v] as int,
            ),
    ensures
        flip_sum(a, fl, upto) == flip_sum_row(p, i, s, fl, upto),
    decreases upto,
{
    if upto > 0 {
        lemma_flip_sum_as_row(p, a, i, s, fl, upto - 1);
    }
}

/// Turns the stated objective into minimization form: coefficients are
/// negated when the problem maximizes.
pub fn create_min_objective(p: &RawProblem) -> (r: Vec<i64>)
    requires
        p.wf(),
    ensures
        r@.len() == p.n(),
        forall|v: int| 0 <= v < p.n() ==> #[trigger] r@[v] as int == p.min_coeff(v),
        forall|v: int| 0 <= v < p.n() ==> -MAX_RAW <= #[trigger] r@[v] <= MAX_RAW,
{
    let n = p.objective.len();
    let mut r: Vec<i64> = Vec::new();
    for v in 0..n
        invariant
            p.wf(),
            n == p.n(),
            r@.len() == v,
            forall|vv: int| 0 <= vv < v ==> #[trigger] r@[vv] as int == p.min_coeff(vv),
            forall|vv: int| 0 <= vv < v ==> -MAX_RAW <= #[trigger] r@[vv] <= MAX_RAW,
    {
        if p.maximize {
            r.push(-p.objective[v]);
        } else {
            r.push(p.objective[v]);
        }
    }
    r
}

/// Rewrites every constraint in `>=` form: a `<=` row is negated on both
/// sides, and an equality row additionally gets a negated copy appended
/// after the main rows, so that the pair expresses the equality.
#[verifier::rlimit(100)]
#[verifier::spinoff_prover]
pub fn create_ge_constraints(p: &RawProblem) -> (r: (
    Vec<Vec<i64>>,
    Vec<i64>,
    Ghost<Seq<int>>,
    Ghost<Seq<int>>,
    Ghost<Seq<int>>,
))
    requires
        p.wf(),
    ensures
        ({
            let (rows, rhs, src, sgn, partner) = r;
            let mm = rhs@.len() as int;
            let n = p.n();
            {
                &&& rows.deep_view().len() == mm
                &&& src@.len() == mm
                &&& sgn@.len() == mm
                &&& partner@.len() == p.m()
                &&& p.m() <= mm
                &&& mm == p.m() + eq_count(p.constraints@, p.m())
                &&& forall|c: int| 0 <= c < mm ==> 0 <= #[trigger] src@[c] < p.m()
                &&& forall|c: int| 0 <= c < mm ==> #[trigger] sgn@[c] == 1 || sgn@[c] == -1
                &&& forall|c: int| 0 <= c < mm ==> #[trigger] rows.deep_view()[c].len() == n
                &&& forall|c: int, v: int|
                    0 <= c < mm && 0 <= v < n ==> #[trigger] rows.deep_view()[c][v] as int
                        == sign_apply(sgn@[c], p.constraints@[src@[c]].coefficients@[v] as int)
                &&& forall|c: int|
                    0 <= c < mm ==> #[trigger] rhs@[c] as int == sign_apply(
                        sgn@[c],
                        p.constraints@[src@[c]].rhs as int,
                    )
                &&& forall|i: int| 0 <= i < p.m() ==> #[trigger] src@[i] == i
                &&& forall|i: int|
                    0 <= i < p.m() ==> #[trigger] sgn@[i] == main_sign(p.constraints@[i].kind)
                &&& forall|c: int|
                    p.m() <= c < mm ==> p.constraints@[#[trigger] src@[c]].kind is Equal
                &&& forall|i: int|
                    0 <= i < p.m() && p.constraints@[i].kind is Equal ==> p.m()
                        <= #[trigger] partner@[i] < mm && src@[partner@[i]] == i && sgn@[partner@[i]]
                        == -1
            }
        }),
{
    let n = p.objective.len();
    let m = p.constraints.len();
    let mut rows: Vec<Vec<i64>> = Vec::new();
    let mut rhs: Vec<i64> = Vec::new();
    let ghost mut src: Seq<int> = Seq::empty();
    let ghost mut sgn: Seq<int> = Seq::empty();
    let mut i: usize = 0;
    while i < m
        invariant
            0 <= i <= m,
            p.wf(),
            n == p.n(),
            m == p.m(),
            rows.deep_view().len() == i,
            rhs@.len() == i,
            src.len() == i,
            sgn.len() == i,
            forall|c: int| 0 <= c < i ==> 0 <= #[trigger] src[c] < p.m(),
            forall|c: int| 0 <= c < i ==> #[trigger] sgn[c] == 1 || sgn[c] == -1,
            forall|c: int| 0 <= c < i ==> #[trigger] rows.deep_view()[c].len() == n,
            forall|c: int, v: int|
                0 <= c < i && 0 <= v < n ==> #[trigger] rows.deep_view()[c][v] as int == sign_apply(
                    sgn[c],
                    p.constraints@[src[c]].coefficients@[v] as int,
                ),
            forall|c: int|
                0 <= c < i ==> #[trigger] rhs@[c] as int == sign_apply(
                    sgn[c],
                    p.constraints@[src[c]].rhs as int,
                ),
            forall|c: int| 0 <= c < i ==> #[trigger] src[c] == c,
            forall|c: int| 0 <= c < i ==> #[trigger] sgn[c] == main_sign(p.constraints@[c].kind),
        decreases m - i,
    {
        let row = &p.constraints[i];
        let negate = match row.kind {
            ConstraintKind::LessEq => true,
            _ => false,
        };
        let ghost signv: int = if negate {
            -1
        } else {
            1
        };
        let ghost pre = rows.deep_view();
        if negate {
            rows.push(scale_row(&row.coefficients, true, Ghost(p.constraints@[i as int].coefficients@)));
            rhs.push(-row.rhs);
        } else {
            rows.push(scale_row(&row.coefficients, false, Ghost(p.constraints@[i as int].coefficients@)));
            rhs.push(row.rhs);
        }
        proof {
            let ghost src_head = src;
            let ghost sgn_head = sgn;
            src = src.push(i as int);
            sgn = sgn.push(signv);
            assert forall|c: int| 0 <= c < i implies src[c] == src_head[c] && sgn[c]
                == sgn_head[c] by {
                assert(src_head.push(i as int)[c] == src_head[c]);
                assert(sgn_head.push(signv)[c] == sgn_head[c]);
            }
            assert(rows.deep_view() =~~= pre.push(rows@[i as int]@));
            assert(src[i as int] == i as int);
            assert(rows.deep_view()[i as int] == rows@[i as int]@);
            assert(sgn[i as int] == main_sign(p.constraints@[i as int].kind));
            assert(forall|v: int|
                0 <= v < n ==> #[trigger] rows.deep_view()[i as int][v] as int == sign_apply(
                    sgn[i as int],
                    p.constraints@[i as int].coefficients@[v] as int,
                ));
            assert(rhs@[i as int] as int == sign_apply(
                sgn[i as int],
                p.constraints@[i as int].rhs as int,
            ));
            assert forall|c: int| 0 <= c < i + 1 implies #[trigger] src[c] == c && sgn[c]
                == main_sign(p.constraints@[c].kind) by {
                if c < i {
                    assert(src[c] == c && sgn[c] == main_sign(p.constraints@[c].kind));
                }
            }
            assert(forall|c: int| 0 <= c < i + 1 ==> #[trigger] src[c] == c);
            assert(forall|c: int|
                0 <= c < i + 1 ==> #[trigger] sgn[c] == main_sign(p.constraints@[c].kind));
        }
        i = i + 1;
    }
    proof {
        assert(forall|c: int| 0 <= c < m ==> #[trigger] src[c] == c);
        assert(forall|c: int|
            0 <= c < m ==> #[trigger] sgn[c] == main_sign(p.constraints@[c].kind));
    }
    let ghost mut partner: Seq<int> = Seq::new(m as nat, |i: int| 0);
    let mut i2: usize = 0;
    while i2 < m
        invariant
            0 <= i2 <= m,
            p.wf(),
            n == p.n(),
            m == p.m(),
            rows.deep_view().len() == rhs@.len(),
            src.len() == rhs@.len(),
            sgn.len() == rhs@.len(),
            m <= rhs@.len(),
            rhs@.len() == m + eq_count(p.constraints@, i2 as int),
            partner.len() == m,
            forall|c: int| 0 <= c < rhs@.len() ==> 0 <= #[trigger] src[c] < p.m(),
            forall|c: int| 0 <= c < rhs@.len() ==> #[trigger] sgn[c] == 1 || sgn[c] == -1,
            forall|c: int| 0 <= c < rhs@.len() ==> #[trigger] rows.deep_view()[c].len() == n,
            forall|c: int, v: int|
                0 <= c < rhs@.len() && 0 <= v < n ==> #[trigger] rows.deep_view()[c][v] as int
                    == sign_apply(sgn[c], p.constraints@[src[c]].coefficients@[v] as int),
            forall|c: int|
                0 <= c < rhs@.len() ==> #[trigger] rhs@[c] as int == sign_apply(
                    sgn[c],
                    p.constraints@[src[c]].rhs as int,
                ),
            forall|c: int| 0 <= c < m ==> #[trigger] src[c] == c,
            forall|c: int| 0 <= c < m ==> #[trigger] sgn[c] == main_sign(p.constraints@[c].kind),
            forall|c: int| m <= c < rhs@.len() ==> p.constraints@[#[trigger] src[c]].kind is Equal,
            forall|j: int|
                0 <= j < i2 && p.constraints@[j].kind is Equal ==> m <= #[trigger] partner[j]
                    < rhs@.len() && src[partner[j]] == j && sgn[partner[j]] == -1,
        decreases m - i2,
    {
        let i = i2;
        let row = &p.constraints[i];
        let is_eq = match row.kind {
            ConstraintKind::Equal => true,
            _ => false,
        };
        if is_eq {
            let ghost pre = rows.deep_view();
            let ghost len_pre = rhs@.len() as int;
            rows.push(scale_row(&row.coefficients, true, Ghost(p.constraints@[i as int].coefficients@)));
            rhs.push(-row.rhs);
            proof {
                let ghost partner_head = partner;
                let ghost src_head = src;
                let ghost sgn_head = sgn;
                partner = partner.update(i as int, len_pre);
                src = src.push(i as int);
                sgn = sgn.push(-1);
                assert forall|c: int| 0 <= c < len_pre implies src[c] == src_head[c] && sgn[c]
                    == sgn_head[c] by {
                    assert(src_head.push(i as int)[c] == src_head[c]);
                    assert(sgn_head.push(-1int)[c] == sgn_head[c]);
                }
                assert forall|j: int| 0 <= j < m && j != i implies partner[j]
                    == partner_head[j] by {
                    assert(partner_head.update(i as int, len_pre)[j] == partner_head[j]);
                }
                assert(rows.deep_view() =~~= pre.push(rows@[rows@.len() - 1]@));
                let ghost cc = rhs@.len() - 1;
                assert(src[cc] == i as int && sgn[cc] == -1);
                assert(rows.deep_view()[cc] == rows@[cc]@);
                assert(forall|v: int|
                    0 <= v < n ==> #[trigger] rows.deep_view()[cc][v] as int == sign_apply(
                        sgn[cc],
                        p.constraints@[i as int].coefficients@[v] as int,
                    ));
                assert(rhs@[cc] as int == sign_apply(sgn[cc], p.constraints@[i as int].rhs as int));
                assert(partner[i as int] == cc);
            }
        }
        proof {
            lemma_eq_count_bounds(p.constraints@, i2 + 1);
            assert(eq_count(p.constraints@, i2 + 1) == eq_count(p.constraints@, i2 as int)
                + if p.constraints@[i2 as int].kind is Equal {
                    1int
                } else {
                    0
                });
        }
        i2 = i2 + 1;
    }
    (rows, rhs, Ghost(src), Ghost(sgn), Ghost(partner))
}

/// Substitutes the complement for every variable whose minimized
/// objective coefficient is negative: the objective coefficient becomes
/// its magnitude, the variable's column changes sign in every row, and
/// each right-hand side drops the flipped columns' original sum.
/// Returns the new objective, the flip markers, the rewritten rows and
/// right-hand sides, and the constant the objective was shifted by.
pub fn fix_neg_variables(minobj: &Vec<i64>, rows: &Vec<Vec<i64>>, rhs: &Vec<i64>) -> (r: (
    Vec<i64>,
    Vec<bool>,
    Vec<Vec<i64>>,
    Vec<i64>,
    i64,
))
    requires
        1 <= minobj@.len() <= MAX_VARS,
        forall|v: int| 0 <= v < minobj@.len() ==> -MAX_RAW <= #[trigger] minobj@[v] <= MAX_RAW,
        rows.deep_view().len() == rhs@.len(),
        forall|c: int|
            0 <= c < rows.deep_view().len() ==> #[trigger] rows.deep_view()[c].len()
                == minobj@.len(),
        forall|c: int, v: int|
            0 <= c < rows.deep_view().len() && 0 <= v < minobj@.len() ==> -MAX_RAW
                <= #[trigger] rows.deep_view()[c][v] <= MAX_RAW,
        forall|c: int| 0 <= c < rhs@.len() ==> -MAX_RAW <= #[trigger] rhs@[c] <= MAX_RAW,
    ensures
        ({
            let (obj2, fl, rows2, rhs2, shift) = r;
            let n = minobj@.len() as int;
            {
                &&& obj2@.len() == n
                &&& fl@.len() == n
                &&& rows2.deep_view().len() == rhs@.len()
                &&& rhs2@.len() == rhs@.len()
                &&& forall|v: int| 0 <= v < n ==> #[trigger] fl@[v] == (minobj@[v] < 0)
                &&& forall|v: int|
                    0 <= v < n ==> #[trigger] obj2@[v] as int == flip_apply(
                        fl@[v],
                        minobj@[v] as int,
                    )
                &&& forall|v: int| 0 <= v < n ==> 0 <= #[trigger] obj2@[v] <= MAX_RAW
                &&& forall|c: int|
                    0 <= c < rhs@.len() ==> #[trigger] rows2.deep_view()[c].len() == n
                &&& forall|c: int, v: int|
                    0 <= c < rhs@.len() && 0 <= v < n ==> #[trigger] rows2.deep_view()[c][v] as int
                        == flip_apply(fl@[v], rows.deep_view()[c][v] as int)
                &&& forall|c: int, v: int|
                    0 <= c < rhs@.len() && 0 <= v < n ==> -MAX_RAW
                        <= #[trigger] rows2.deep_view()[c][v] <= MAX_RAW
                &&& forall|c: int|
                    0 <= c < rhs@.len() ==> #[trigger] rhs2@[c] as int == rhs@[c] - flip_sum(
                        rows.deep_view()[c],
                        fl@,
                        n,
                    )
                &&& forall|c: int| 0 <= c < rhs@.len() ==> -MAX_RHS <= #[trigger] rhs2@[c] <= MAX_RHS
                &&& shift as int == flip_sum(minobj@, fl@, n)
            }
        }),
{
    let n = minobj.len();
    let m = rows.len();
    let mut fl: Vec<bool> = Vec::new();
    for v in 0..n
        invariant
            n == minobj@.len(),
            fl@.len() == v,
            forall|vv: int| 0 <= vv < v ==> #[trigger] fl@[vv] == (minobj@[vv] < 0),
    {
        fl.push(minobj[v] < 0);
    }
    let mut obj2: Vec<i64> = Vec::new();
    for v in 0..n
        invariant
            n == minobj@.len(),
            forall|vv: int| 0 <= vv < n ==> -MAX_RAW <= #[trigger] minobj@[vv] <= MAX_RAW,
            fl@.len() == n,
            forall|vv: int| 0 <= vv < n ==> #[trigger] fl@[vv] == (minobj@[vv] < 0),
            obj2@.len() == v,
            forall|vv: int|
                0 <= vv < v ==> #[trigger] obj2@[vv] as int == flip_apply(
                    fl@[vv],
                    minobj@[vv] as int,
                ),
            forall|vv: int| 0 <= vv < v ==> 0 <= #[trigger] obj2@[vv] <= MAX_RAW,
    {
        if fl[v] {
            obj2.push(-minobj[v]);
        } else {
            obj2.push(minobj[v]);
        }
    }
    let shift = flip_sum_exec(minobj, &fl);
    let mut rows2: Vec<Vec<i64>> = Vec::new();
    let mut rhs2: Vec<i64> = Vec::new();
    for c in 0..m
        invariant
            n == minobj@.len(),
            1 <= n <= MAX_VARS,
            m == rows.deep_view().len(),
            m == rhs@.len(),
            fl@.len() == n,
            forall|cc: int|
                0 <= cc < m ==> #[trigger] rows.deep_view()[cc].len() == n,
            forall|cc: int, vv: int|
                0 <= cc < m && 0 <= vv < n ==> -MAX_RAW <= #[trigger] rows.deep_view()[cc][vv]
                    <= MAX_RAW,
            forall|cc: int| 0 <= cc < m ==> -MAX_RAW <= #[trigger] rhs@[cc] <= MAX_RAW,
            rows2.deep_view().len() == c,
            rhs2@.len() == c,
            forall|cc: int| 0 <= cc < c ==> #[trigger] rows2.deep_view()[cc].len() == n,
            forall|cc: int, vv: int|
                0 <= cc < c && 0 <= vv < n ==> #[trigger] rows2.deep_view()[cc][vv] as int
                    == flip_apply(fl@[vv], rows.deep_view()[cc][vv] as int),
            forall|cc: int, vv: int|
                0 <= cc < c && 0 <= vv < n ==> -MAX_RAW <= #[trigger] rows2.deep_view()[cc][vv]
                    <= MAX_RAW,
            forall|cc: int|
                0 <= cc < c ==> #[trigger] rhs2@[cc] as int == rhs@[cc] - flip_sum(
                    rows.deep_view()[cc],
                    fl@,
                    n as int,
                ),
            forall|cc: int| 0 <= cc < c ==> -MAX_RHS <= #[trigger] rhs2@[cc] <= MAX_RHS,
    {
        proof {
            assert(rows@[c as int]@ =~= rows.deep_view()[c as int]);
        }
        let row2 = flip_row(&rows[c], &fl, Ghost(rows.deep_view()[c as int]));
        let rsum = flip_sum_exec(&rows[c], &fl);
        proof {
            lemma_flip_sum_bounds(rows.deep_view()[c as int], fl@, n as int);
            assert(rsum as int == flip_sum(rows.deep_view()[c as int], fl@, n as int));
        }
        let ghost pre = rows2.deep_view();
        rows2.push(row2);
        rhs2.push(rhs[c] - rsum);
        proof {
            assert(rows2.deep_view() =~~= pre.push(rows2@[c as int]@));
        }
    }
    (obj2, fl, rows2, rhs2, shift)
}

/// Sums the entries of `row` at the flipped positions.
fn flip_sum_exec(row: &Vec<i64>, fl: &Vec<bool>) -> (r: i64)
    requires
        row@.len() == fl@.len(),
        row@.len() <= MAX_VARS,
        forall|v: int| 0 <= v < row@.len() ==> -MAX_RAW <= #[trigger] row@[v] <= MAX_RAW,
    ensures
        r as int == flip_sum(row@, fl@, row@.len() as int),
{
    let mut total: i64 = 0;
    for v in 0..row.len()
        invariant
            row@.len() == fl@.len(),
            row@.len() <= MAX_VARS,
            forall|vv: int| 0 <= vv < row@.len() ==> -MAX_RAW <= #[trigger] row@[vv] <= MAX_RAW,
            total as int == flip_sum(row@, fl@, v as int),
    {
        proof {
            lemma_flip_sum_bounds(row@, fl@, v as int);
        }
        if fl[v] {
            total = total + row[v];
        }
        proof {
            assert(flip_sum(row@, fl@, v + 1) == flip_sum(row@, fl@, v as int) + if fl@[v as int] {
                row@[v as int] as int
            } else {
                0
            });
        }
    }
    total
}

/// Copies one dense row, negating the flipped positions.
fn flip_row(row: &Vec<i64>, fl: &Vec<bool>, Ghost(orig): Ghost<Seq<i64>>) -> (r: Vec<i64>)
    requires
        row@ == orig,
        row@.len() == fl@.len(),
        forall|v: int| 0 <= v < row@.len() ==> -MAX_RAW <= #[trigger] row@[v] <= MAX_RAW,
    ensures
        r@.len() == row@.len(),
        forall|v: int|
            0 <= v < row@.len() ==> #[trigger] r@[v] as int == flip_apply(fl@[v], orig[v] as int),
        forall|v: int| 0 <= v < row@.len() ==> -MAX_RAW <= #[trigger] r@[v] <= MAX_RAW,
{
    let mut r: Vec<i64> = Vec::new();
    for v in 0..row.len()
        invariant
            row@ == orig,
            row@.len() == fl@.len(),
            forall|vv: int| 0 <= vv < row@.len() ==> -MAX_RAW <= #[trigger] row@[vv] <= MAX_RAW,
            r@.len() == v,
            forall|vv: int|
                0 <= vv < v ==> #[trigger] r@[vv] as int == flip_apply(fl@[vv], orig[vv] as int),
            forall|vv: int| 0 <= vv < v ==> -MAX_RAW <= #[trigger] r@[vv] <= MAX_RAW,
    {
        if fl[v] {
            r.push(-row[v]);
        } else {
            r.push(row[v]);
        }
        proof {
            assert(r@[v as int] as int == flip_apply(fl@[v as int], orig[v as int] as int));
        }
    }
    r
}

/// Rewrites constraint-major rows into the solver's transposed,
/// variable-major layout.
fn transpose_rows(rows: &Vec<Vec<i64>>, n: usize) -> (r: Vec<Vec<i64>>)
    requires
        forall|c: int| 0 <= c < rows.deep_view().len() ==> #[trigger] rows.deep_view()[c].len() == n,
    ensures
        r.deep_view().len() == n,
        forall|v: int| 0 <= v < n ==> #[trigger] r.deep_view()[v].len() == rows.deep_view().len(),
        forall|v: int, c: int|
            0 <= v < n && 0 <= c < rows.deep_view().len() ==> #[trigger] r.deep_view()[v][c]
                == rows.deep_view()[c][v],
{
    let m = rows.len();
    let mut r: Vec<Vec<i64>> = Vec::new();
    for v in 0..n
        invariant
            m == rows.deep_view().len(),
            forall|c: int| 0 <= c < m ==> #[trigger] rows.deep_view()[c].len() == n,
            r.deep_view().len() == v,
            forall|vv: int| 0 <= vv < v ==> #[trigger] r.deep_view()[vv].len() == m,
            forall|vv: int, c: int|
                0 <= vv < v && 0 <= c < m ==> #[trigger] r.deep_view()[vv][c]
                    == rows.deep_view()[c][vv],
    {
        let mut col: Vec<i64> = Vec::new();
        for c in 0..m
            invariant
                v < n,
                m == rows.deep_view().len(),
                forall|cc: int| 0 <= cc < m ==> #[trigger] rows.deep_view()[cc].len() == n,
                col@.len() == c,
                forall|cc: int| 0 <= cc < c ==> #[trigger] col@[cc] == rows.deep_view()[cc][v as int],
        {
            proof {
                assert(rows@[c as int]@ =~= rows.deep_view()[c as int]);
            }
            col.push(rows[c][v]);
        }
        let ghost pre = r.deep_view();
        r.push(col);
        proof {
            assert(r.deep_view() =~~= pre.push(r@[v as int]@));
        }
    }
    r
}

/// Runs the whole normalization pipeline: minimization form, `>=` rows,
/// complement substitution, and the transpose into the solver's layout.
pub fn normalize_for_balas(p: &RawProblem) -> (r: (
    NormalizedProblem,
    Ghost<Seq<int>>,
    Ghost<Seq<int>>,
    Ghost<Seq<int>>,
))
    requires
        p.wf(),
    ensures
        normalizes(*p, r.0, r.1@, r.2@, r.3@),
{
    let ghost n = p.n();
    let minobj = create_min_objective(p);
    let (rows, rhs, gsrc, gsgn, gpartner) = create_ge_constraints(p);
    let (obj2, fl, rows2, rhs2, shift) = fix_neg_variables(&minobj, &rows, &rhs);
    let constraints = transpose_rows(&rows2, minobj.len());
    let np = NormalizedProblem { coefficients: obj2, constraints, rhs: rhs2, flipped: fl, shift };
    proof {
        let ghost src = gsrc@;
        let ghost sgn = gsgn@;
        let ghost mm = np.rhs@.len() as int;
        lemma_flip_sum_as_min(*p, minobj@, np.flipped@, n);
        assert forall|c: int| 0 <= c < mm implies #[trigger] np.rhs@[c] as int == sign_apply(
            sgn[c],
            p.constraints@[src[c]].rhs as int,
        ) - flip_sum_row(*p, src[c], sgn[c], np.flipped@, n) by {
            lemma_flip_sum_as_row(*p, rows.deep_view()[c], src[c], sgn[c], np.flipped@, n);
        }
        assert forall|c: int, v: int| 0 <= c < mm && 0 <= v < n implies
            #[trigger] np.constraints.deep_view()[v][c] == flip_apply(
            np.flipped@[v],
            sign_apply(sgn[c], p.constraints@[src[c]].coefficients@[v] as int),
        ) by {
            assert(np.constraints.deep_view()[v][c] == rows2.deep_view()[c][v]);
            assert(rows2.deep_view()[c][v] as int == flip_apply(
                np.flipped@[v],
                rows.deep_view()[c][v] as int,
            ));
        }
        assert(np.pv().wf());
    }
    (np, gsrc, gsgn, gpartner)
}

proof fn lemma_obj_as_dot(p: ProblemView, y: Seq<u8>, upto: int)
    ensures
        objective_upto(p, y, upto) == dot(p.coefficients, y, upto),
    decreases upto,
{
    if upto > 0 {
        lemma_obj_as_dot(p, y, upto - 1);
    }
}

proof fn lemma_lhs_as_dot(p: ProblemView, col: Seq<i64>, y: Seq<u8>, c: int, upto: int)
    requires
        forall|v: int| 0 <= v < upto ==> #[trigger] col[v] == p.constraints[v][c],
    ensures
        lhs_upto(p, y, c, upto) == dot(col, y, upto),
    decreases upto,
{
    if upto > 0 {
        lemma_lhs_as_dot(p, col, y, c, upto - 1);
    }
}

proof fn lemma_dot_sign(a: Seq<i64>, a2: Seq<i64>, s: int, x: Seq<u8>, upto: int)
    requires
        is_bits(x),
        upto <= x.len(),
        s == 1 || s == -1,
        forall|v: int| 0 <= v < upto ==> #[trigger] a2[v] as int == sign_apply(s, a[v] as int),
    ensures
        dot(a2, x, upto) == sign_apply(s, dot(a, x, upto)),
    decreases upto,
{
    if upto > 0 {
        lemma_dot_sign(a, a2, s, x, upto - 1);
        if x[upto - 1] == 0 {
            assert(a2[upto - 1] * (x[upto - 1] as int) == 0);
            assert(a[upto - 1] * (x[upto - 1] as int) == 0);
        } else {
            assert(a2[upto - 1] * (x[upto - 1] as int) == a2[upto - 1] as int);
            assert(a[upto - 1] * (x[upto - 1] as int) == a[upto - 1] as int);
        }
    }
}

proof fn lemma_dot_flip(a: Seq<i64>, a2: Seq<i64>, fl: Seq<bool>, y: Seq<u8>, upto: int)
    requires
        is_bits(y),
        upto <= y.len(),
        forall|v: int| 0 <= v < upto ==> #[trigger] a2[v] as int == flip_apply(fl[v], a[v] as int),
    ensures
        dot(a2, y, upto) == dot(a, denorm(y, fl), upto) - flip_sum(a, fl, upto),
    decreases upto,
{
    if upto > 0 {
        lemma_dot_flip(a, a2, fl, y, upto - 1);
        let x = denorm(y, fl);
        let v = upto - 1;
        assert(y[v] == 0 || y[v] == 1);
        if fl[v] {
            assert(x[v] as int == 1 - (y[v] as int));
            if y[v] == 0 {
                assert(x[v] == 1);
                assert(a2[v] * (y[v] as int) == 0);
                assert(a[v] * (x[v] as int) == a[v] as int);
            } else {
                assert(x[v] == 0);
                assert(a2[v] * (y[v] as int) == a2[v] as int);
                assert(a[v] * (x[v] as int) == 0);
            }
        } else {
            assert(x[v] == y[v]);
            if y[v] == 0 {
                assert(a2[v] * (y[v] as int) == 0);
                assert(a[v] * (x[v] as int) == 0);
            } else {
                assert(a2[v] * (y[v] as int) == a2[v] as int);
                assert(a[v] * (x[v] as int) == a[v] as int);
            }
        }
    }
}

/// One normalized row measured against its right-hand side is exactly
/// the signed slack of the raw row it came from, evaluated at the
/// mapped-back assignment.
proof fn lemma_row_slack(
    p: RawProblem,
    r: NormalizedProblem,
    src: Seq<int>,
    sgn: Seq<int>,
    partner: Seq<int>,
    y: Seq<u8>,
    c: int,
)
    requires
        p.wf(),
        normalizes(p, r, src, sgn, partner),
        is_bits(y),
        y.len() == p.n(),
        0 <= c < r.rhs@.len(),
    ensures
        lhs_value(r.pv(), y, c) - r.rhs@[c] == sign_apply(
            sgn[c],
            dot(p.constraints@[src[c]].coefficients@, denorm(y, r.flipped@), p.n())
                - p.constraints@[src[c]].rhs,
        ),
{
    let n = p.n();
    let fl = r.flipped@;
    let x = denorm(y, fl);
    let a = p.constraints@[src[c]].coefficients@;
    let s = sgn[c];
    let col = Seq::new(n as nat, |v: int| r.constraints.deep_view()[v][c]);
    let arow = Seq::new(n as nat, |v: int| sign_apply(s, a[v] as int) as i64);
    assert(forall|v: int| 0 <= v < n ==> -MAX_RAW <= #[trigger] a[v] <= MAX_RAW);
    assert(forall|v: int| 0 <= v < n ==> #[trigger] arow[v] as int == sign_apply(s, a[v] as int));
    assert(forall|v: int|
        0 <= v < n ==> #[trigger] col[v] as int == flip_apply(fl[v], arow[v] as int));
    lemma_lhs_as_dot(r.pv(), col, y, c, n);
    lemma_dot_flip(arow, col, fl, y, n);
    lemma_dot_sign(a, arow, s, x, n);
    lemma_flip_sum_as_row(p, arow, src[c], s, fl, n);
}

/// Round trip: an assignment satisfies the normalized problem exactly
/// when its mapped-back image satisfies the raw problem, and the
/// normalized objective differs from the raw objective, in the raw
/// problem's stated sense, only by the recorded shift and sign.
pub proof fn lemma_normalize_round_trip(
    p: RawProblem,
    r: NormalizedProblem,
    src: Seq<int>,
    sgn: Seq<int>,
    partner: Seq<int>,
    y: Seq<u8>,
)
    requires
        p.wf(),
        normalizes(p, r, src, sgn, partner),
        is_bits(y),
        y.len() == p.n(),
    ensures
        is_bits(denorm(y, r.flipped@)),
        denorm(y, r.flipped@).len() == p.n(),
        satisfies(r.pv(), y) <==> raw_satisfies(p, denorm(y, r.flipped@)),
        objective_value(r.pv(), y) + r.shift == sign_apply(
            if p.maximize {
                -1int
            } else {
                1int
            },
            raw_objective(p, denorm(y, r.flipped@)),
        ),
{
    let n = p.n();
    let m = p.m();
    let mm = r.rhs@.len() as int;
    let fl = r.flipped@;
    let x = denorm(y, fl);
    assert forall|v: int| 0 <= v < x.len() implies x[v] == 0 || x[v] == 1 by {
        assert(y[v] == 0 || y[v] == 1);
    }

    if raw_satisfies(p, x) {
        assert forall|c: int| 0 <= c < r.pv().m() implies lhs_value(r.pv(), y, c)
            >= r.pv().rhs[c] by {
            lemma_row_slack(p, r, src, sgn, partner, y, c);
            assert(raw_row_ok(p.constraints@[src[c]], x));
            if src[c] < m && c < m {
                assert(sgn[c] == main_sign(p.constraints@[c].kind));
            }
        }
        assert(satisfies(r.pv(), y));
    }
    if satisfies(r.pv(), y) {
        assert forall|i: int| 0 <= i < m implies raw_row_ok(#[trigger] p.constraints@[i], x) by {
            lemma_row_slack(p, r, src, sgn, partner, y, i);
            assert(lhs_value(r.pv(), y, i) >= r.pv().rhs[i]);
            match p.constraints@[i].kind {
                ConstraintKind::GreaterEq => {
                    assert(sgn[i] == 1);
                },
                ConstraintKind::LessEq => {
                    assert(sgn[i] == -1);
                },
                ConstraintKind::Equal => {
                    assert(sgn[i] == 1);
                    let c2 = partner[i];
                    assert(m <= c2 < mm && src[c2] == i && sgn[c2] == -1);
                    lemma_row_slack(p, r, src, sgn, partner, y, c2);
                    assert(lhs_value(r.pv(), y, c2) >= r.pv().rhs[c2]);
                },
            }
        }
        assert(raw_satisfies(p, x));
    }

    let mseq = Seq::new(n as nat, |v: int| p.min_coeff(v) as i64);
    assert(forall|v: int| 0 <= v < n ==> #[trigger] mseq[v] as int == p.min_coeff(v));
    assert(forall|v: int|
        0 <= v < n ==> #[trigger] r.coefficients@[v] as int == flip_apply(fl[v], mseq[v] as int));
    lemma_obj_as_dot(r.pv(), y, n);
    lemma_dot_flip(mseq, r.coefficients@, fl, y, n);
    lemma_flip_sum_as_min(p, mseq, fl, n);
    let msign: int = if p.maximize {
        -1
    } else {
        1
    };
    assert(forall|v: int|
        0 <= v < n ==> #[trigger] mseq[v] as int == sign_apply(msign, p.objective@[v] as int));
    lemma_dot_sign(p.objective@, mseq, msign, x, n);
}

/// Copies one dense row, negating it when asked.
fn scale_row(row: &Vec<i64>, negate: bool, Ghost(orig): Ghost<Seq<i64>>) -> (r: Vec<i64>)
    requires
        row@ == orig,
        forall|v: int| 0 <= v < row@.len() ==> -MAX_RAW <= #[trigger] row@[v] <= MAX_RAW,
    ensures
        r@.len() == row@.len(),
        forall|v: int|
            0 <= v < row@.len() ==> #[trigger] r@[v] as int == sign_apply(
                if negate {
                    -1int
                } else {
                    1int
                },
                orig[v] as int,
            ),
{
    let mut r: Vec<i64> = Vec::new();
    for v in 0..row.len()
        invariant
            row@ == orig,
            forall|vv: int| 0 <= vv < row@.len() ==> -MAX_RAW <= #[trigger] row@[vv] <= MAX_RAW,
            r@.len() == v,
            forall|vv: int|
                0 <= vv < v ==> #[trigger] r@[vv] as int == sign_apply(
                    if negate {
                        -1int
                    } else {
                        1int
                    },
                    orig[vv] as int,
                ),
    {
        if negate {
            r.push(-row[v]);
        } else {
            r.push(row[v]);
        }
        proof {
            assert(r@[v as int] as int == sign_apply(
                if negate {
                    -1int
                } else {
                    1int
                },
                orig[v as int] as int,
            ));
        }
    }
    r
}

} // verus!
