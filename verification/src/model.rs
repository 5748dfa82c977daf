//! Mathematical model of the allocation solver.
//!
//! Every quantity is a mathematical integer standing for a fixed-point
//! number (see [`crate::fxp::SCALE`]).  The model mirrors the executable
//! solver operation for operation, including the overflow checks, so the
//! executable functions can promise `result == model(inputs)`: the model is
//! the single, deterministic meaning of a solver run.  `None` stands for the
//! numerical fault the executable solver reports.

use vstd::prelude::*;

use crate::fxp::fxp_div_val;
use crate::fxp::fxp_mul_val;
use crate::fxp::fxp_pow_val;
use crate::fxp::SCALE;

verus! {

/// Number of outer iterations the solver always performs.
pub const ITERS: u64 = 1024;

/// Sum of the elements of an integer sequence.
pub open spec fn seq_sum(s: Seq<int>) -> int
    decreases s.len(),
{
    if s.len() == 0 {
        0
    } else {
        seq_sum(s.drop_last()) + s.last()
    }
}

/// Every element of the sequence is non-negative.
pub open spec fn all_nonneg(s: Seq<int>) -> bool {
    forall|i: int| 0 <= i < s.len() ==> s[i] >= 0
}

/// Every element of the sequence equals the first one.
pub open spec fn all_equal(s: Seq<int>) -> bool {
    forall|i: int| 0 <= i < s.len() ==> #[trigger] s[i] == s[0]
}

/// Absolute value.
pub open spec fn abs_val(a: int) -> int {
    if a < 0 {
        -a
    } else {
        a
    }
}

/// Finish time of one worker: transfer delay plus compute rate times its
/// share, `None` when it leaves the word range.
pub open spec fn finish_val(xi: int, ci: int, ti: int) -> Option<int> {
    if fxp_mul_val(ci, ti) > u64::MAX {
        None
    } else if xi + fxp_mul_val(ci, ti) > u64::MAX {
        None
    } else {
        Some(xi + fxp_mul_val(ci, ti))
    }
}

/// Gradient coordinate of the smoothed objective: `c * (x + c*t)^(p-1)`,
/// `None` when it leaves the word range.
pub open spec fn grad_val(xi: int, ci: int, ti: int, p: nat) -> Option<int> {
    match finish_val(xi, ci, ti) {
        Option::None => None,
        Option::Some(f) => match fxp_pow_val(f, (p - 1) as nat) {
            Option::None => None,
            Option::Some(w) => {
                if fxp_mul_val(ci, w) > u64::MAX {
                    None
                } else {
                    Some(fxp_mul_val(ci, w))
                }
            },
        },
    }
}

/// The gradient is defined at every coordinate.
pub open spec fn grads_ok(x: Seq<int>, c: Seq<int>, t: Seq<int>, p: nat) -> bool {
    forall|i: int| 0 <= i < x.len() ==> grad_val(x[i], c[i], t[i], p) is Some
}

/// The gradient vector.
pub open spec fn grad_seq(x: Seq<int>, c: Seq<int>, t: Seq<int>, p: nat) -> Seq<int> {
    Seq::new(x.len(), |i: int| grad_val(x[i], c[i], t[i], p).unwrap())
}

/// Curvature majorizer of one coordinate: `(p-1) * c^2 * (x+c)^(p-2)`,
/// `None` when it leaves the word range.
pub open spec fn denom_val(xi: int, ci: int, p: nat) -> Option<int> {
    if xi + ci > u64::MAX {
        None
    } else {
        match fxp_pow_val(xi + ci, (p - 2) as nat) {
            Option::None => None,
            Option::Some(w) => {
                if fxp_mul_val(ci, ci) > u64::MAX {
                    None
                } else if fxp_mul_val(fxp_mul_val(ci, ci), w) > u64::MAX {
                    None
                } else if (p - 1) * fxp_mul_val(fxp_mul_val(ci, ci), w) > u64::MAX {
                    None
                } else {
                    Some((p - 1) * fxp_mul_val(fxp_mul_val(ci, ci), w))
                }
            },
        }
    }
}

/// Every majorizer coordinate is defined and strictly positive, so it can
/// divide a gradient step.
pub open spec fn denoms_ok(x: Seq<int>, c: Seq<int>, p: nat) -> bool {
    forall|i: int| 0 <= i < x.len() ==> match #[trigger] denom_val(x[i], c[i], p) {
            Option::Some(dv) => dv > 0,
            Option::None => false,
        }
}

/// The majorizer vector.
pub open spec fn denom_seq(x: Seq<int>, c: Seq<int>, p: nat) -> Seq<int> {
    Seq::new(x.len(), |i: int| denom_val(x[i], c[i], p).unwrap())
}

/// Scaled step against one coordinate: `step * |gn| / d`, `None` when it
/// leaves the word range.
pub open spec fn delta_val(step: int, gni: int, di: int) -> Option<int> {
    if fxp_mul_val(step, abs_val(gni)) > u64::MAX {
        None
    } else if fxp_div_val(fxp_mul_val(step, abs_val(gni)), di) > u64::MAX {
        None
    } else {
        Some(fxp_div_val(fxp_mul_val(step, abs_val(gni)), di))
    }
}

/// Candidate coordinate `t - step * gn / d`.  A negative result is a defined
/// value (it signals infeasibility); `None` is a word overflow.
pub open spec fn cand_val(ti: int, gni: int, di: int, step: int) -> Option<int> {
    match delta_val(step, gni, di) {
        Option::None => None,
        Option::Some(dl) => {
            if gni >= 0 {
                Some(ti - dl)
            } else if ti + dl > u64::MAX {
                None
            } else {
                Some(ti + dl)
            }
        },
    }
}

/// The candidate is defined at every coordinate.
pub open spec fn cands_ok(t: Seq<int>, gn: Seq<int>, d: Seq<int>, step: int) -> bool {
    forall|i: int| 0 <= i < t.len() ==> cand_val(t[i], gn[i], d[i], step) is Some
}

/// The candidate vector.
pub open spec fn cand_seq(t: Seq<int>, gn: Seq<int>, d: Seq<int>, step: int) -> Seq<int> {
    Seq::new(t.len(), |i: int| cand_val(t[i], gn[i], d[i], step).unwrap())
}

/// Feasibility-driven backtracking: starting from `step`, halve the step
/// until the candidate is non-negative everywhere, and return that candidate.
/// `None` is a word overflow (the step-zero branch is vacuous: a zero step
/// reproduces `t` itself, which is feasible whenever `t` is).
pub open spec fn backtrack_val(t: Seq<int>, gn: Seq<int>, d: Seq<int>, step: nat) -> Option<
    Seq<int>,
>
    decreases step,
{
    if !cands_ok(t, gn, d, step as int) {
        None
    } else if all_nonneg(cand_seq(t, gn, d, step as int)) {
        Some(cand_seq(t, gn, d, step as int))
    } else if step == 0 {
        None
    } else {
        backtrack_val(t, gn, d, step / 2)
    }
}

/// Rescale onto the simplex: each coordinate becomes `t * SCALE / sum(t)`.
/// `None` when the sum leaves the word range or vanishes.
pub open spec fn renorm_val(tn: Seq<int>) -> Option<Seq<int>> {
    if seq_sum(tn) <= 0 || seq_sum(tn) > u64::MAX {
        None
    } else {
        Some(Seq::new(tn.len(), |i: int| fxp_div_val(tn[i], seq_sum(tn))))
    }
}

/// Projection of the gradient onto the tangent space of the sum-to-one
/// constraint: subtract the mean from every coordinate.
pub open spec fn proj_seq(g: Seq<int>, mean: int) -> Seq<int> {
    Seq::new(g.len(), |i: int| g[i] - mean)
}

/// One outer iteration: gradient, projection onto the tangent space of the
/// sum-to-one constraint, feasibility backtracking, renormalization.
pub open spec fn step_once_val(
    x: Seq<int>,
    c: Seq<int>,
    d: Seq<int>,
    t: Seq<int>,
    p: nat,
) -> Option<Seq<int>> {
    if !grads_ok(x, c, t, p) {
        None
    } else if seq_sum(grad_seq(x, c, t, p)) > u64::MAX {
        None
    } else {
        let gn = proj_seq(
            grad_seq(x, c, t, p),
            seq_sum(grad_seq(x, c, t, p)) / (x.len() as int),
        );
        match backtrack_val(t, gn, d, SCALE as nat) {
            Option::None => None,
            Option::Some(tn) => renorm_val(tn),
        }
    }
}

/// `k` outer iterations from state `t`.
pub open spec fn iterate_val(
    x: Seq<int>,
    c: Seq<int>,
    d: Seq<int>,
    t: Seq<int>,
    p: nat,
    k: nat,
) -> Option<Seq<int>>
    decreases k,
{
    if k == 0 {
        Some(t)
    } else {
        match step_once_val(x, c, d, t, p) {
            Option::None => None,
            Option::Some(t2) => iterate_val(x, c, d, t2, p, (k - 1) as nat),
        }
    }
}

/// Uniform starting allocation `1/n`.
pub open spec fn init_alloc(n: nat) -> Seq<int> {
    Seq::new(n, |i: int| (SCALE as int) / (n as int))
}

/// The solver with an explicit iteration budget: majorizer once, then `k`
/// outer iterations from the uniform allocation.  `Some` is the returned
/// allocation; `None` is the numerical fault.
pub open spec fn solve_budget_val(x: Seq<int>, c: Seq<int>, p: nat, k: nat) -> Option<Seq<int>> {
    if !denoms_ok(x, c, p) {
        None
    } else {
        iterate_val(x, c, denom_seq(x, c, p), init_alloc(x.len()), p, k)
    }
}

/// The complete solver with the baseline budget of `ITERS` outer iterations.
pub open spec fn solve_val(x: Seq<int>, c: Seq<int>, p: nat) -> Option<Seq<int>> {
    solve_budget_val(x, c, p, ITERS as nat)
}

/// An integer sequence standing for a word sequence.
pub open spec fn to_ints(s: Seq<u64>) -> Seq<int> {
    s.map_values(|v: u64| v as int)
}

/// Extending a prefix by one element adds that element to its sum.
pub proof fn lemma_seq_sum_take_succ(s: Seq<int>, j: int)
    requires
        0 <= j < s.len(),
    ensures
        seq_sum(s.take(j + 1)) == seq_sum(s.take(j)) + s[j],
{
    assert(s.take(j + 1).drop_last() =~= s.take(j));
    assert(s.take(j + 1).last() == s[j]);
}

/// The sum of the whole sequence is the sum of its full prefix.
pub proof fn lemma_seq_sum_take_all(s: Seq<int>)
    ensures
        seq_sum(s.take(s.len() as int)) == seq_sum(s),
{
    assert(s.take(s.len() as int) =~= s);
}

/// A sum of non-negative elements is non-negative.
pub proof fn lemma_seq_sum_nonneg(s: Seq<int>)
    requires
        all_nonneg(s),
    ensures
        seq_sum(s) >= 0,
    decreases s.len(),
{
    if s.len() > 0 {
        assert(all_nonneg(s.drop_last()));
        lemma_seq_sum_nonneg(s.drop_last());
    }
}

/// For non-negative elements, a prefix sum never exceeds the whole sum.
pub proof fn lemma_seq_sum_prefix_le(s: Seq<int>, j: int)
    requires
        all_nonneg(s),
        0 <= j <= s.len(),
    ensures
        seq_sum(s.take(j)) <= seq_sum(s),
    decreases s.len() - j,
{
    if j == s.len() {
        lemma_seq_sum_take_all(s);
    } else {
        lemma_seq_sum_take_succ(s, j);
        lemma_seq_sum_prefix_le(s, j + 1);
    }
}

/// For non-negative elements, each element is at most the whole sum.
pub proof fn lemma_seq_elem_le_sum(s: Seq<int>, i: int)
    requires
        all_nonneg(s),
        0 <= i < s.len(),
    ensures
        s[i] <= seq_sum(s),
{
    lemma_seq_sum_take_succ(s, i);
    lemma_seq_sum_prefix_le(s, i + 1);
    assert(all_nonneg(s.take(i)));
    lemma_seq_sum_nonneg(s.take(i));
}

/// The sum of a constant sequence is its length times the constant.
pub proof fn lemma_seq_sum_const(s: Seq<int>, v: int)
    requires
        forall|i: int| 0 <= i < s.len() ==> s[i] == v,
    ensures
        seq_sum(s) == s.len() * v,
    decreases s.len(),
{
    if s.len() > 0 {
        lemma_seq_sum_const(s.drop_last(), v);
        assert(s.len() * v == (s.len() - 1) * v + v) by (nonlinear_arith);
    }
}

/// Rounded-down division distributes over a sum up to one unit per addend.
pub proof fn lemma_div_add_bounds(a: int, b: int, d: int)
    requires
        0 <= a,
        0 <= b,
        0 < d,
    ensures
        a / d + b / d <= (a + b) / d,
        (a + b) / d <= a / d + b / d + 1,
{
    vstd::arithmetic::div_mod::lemma_fundamental_div_mod(a, d);
    vstd::arithmetic::div_mod::lemma_fundamental_div_mod(b, d);
    vstd::arithmetic::div_mod::lemma_mod_bound(a, d);
    vstd::arithmetic::div_mod::lemma_mod_bound(b, d);
    assert((a / d + b / d) * d == d * (a / d) + d * (b / d)) by (nonlinear_arith);
    assert((a / d + b / d + 1) * d == d * (a / d) + d * (b / d) + d) by (nonlinear_arith);
    if a % d + b % d < d {
        vstd::arithmetic::div_mod::lemma_fundamental_div_mod_converse(
            a + b,
            d,
            a / d + b / d,
            a % d + b % d,
        );
    } else {
        vstd::arithmetic::div_mod::lemma_fundamental_div_mod_converse(
            a + b,
            d,
            a / d + b / d + 1,
            a % d + b % d - d,
        );
    }
}

/// Renormalized prefix sums track the rescaled prefix sums to within one
/// rounding unit per coordinate.
proof fn lemma_renorm_sum_bounds(tn: Seq<int>, ts: int, j: int)
    requires
        all_nonneg(tn),
        ts == seq_sum(tn),
        0 < ts,
        0 <= j <= tn.len(),
    ensures
        seq_sum(Seq::new(tn.len(), |i: int| fxp_div_val(tn[i], ts)).take(j)) <= (seq_sum(
            tn.take(j),
        ) * (SCALE as int)) / ts,
        seq_sum(Seq::new(tn.len(), |i: int| fxp_div_val(tn[i], ts)).take(j)) >= (seq_sum(
            tn.take(j),
        ) * (SCALE as int)) / ts - j,
    decreases j,
{
    let t2 = Seq::new(tn.len(), |i: int| fxp_div_val(tn[i], ts));
    if j == 0 {
        assert(seq_sum(t2.take(0)) == 0);
        assert(seq_sum(tn.take(0)) == 0);
    } else {
        lemma_renorm_sum_bounds(tn, ts, j - 1);
        lemma_seq_sum_take_succ(t2, j - 1);
        lemma_seq_sum_take_succ(tn, j - 1);
        let a = seq_sum(tn.take(j - 1)) * (SCALE as int);
        let b = tn[j - 1] * (SCALE as int);
        assert(all_nonneg(tn.take(j - 1)));
        lemma_seq_sum_nonneg(tn.take(j - 1));
        assert(a >= 0) by (nonlinear_arith)
            requires
                seq_sum(tn.take(j - 1)) >= 0,
                a == seq_sum(tn.take(j - 1)) * (SCALE as int),
        ;
        assert(b >= 0) by (nonlinear_arith)
            requires
                tn[j - 1] >= 0,
                b == tn[j - 1] * (SCALE as int),
        ;
        lemma_div_add_bounds(a, b, ts);
        assert(seq_sum(tn.take(j)) * (SCALE as int) == a + b) by (nonlinear_arith)
            requires
                seq_sum(tn.take(j)) == seq_sum(tn.take(j - 1)) + tn[j - 1],
                a == seq_sum(tn.take(j - 1)) * (SCALE as int),
                b == tn[j - 1] * (SCALE as int),
        ;
        assert(t2[j - 1] == (tn[j - 1] * (SCALE as int)) / ts);
    }
}

/// A defined renormalization returns a sequence of coordinates in `[0, SCALE]`
/// whose sum lies within the length of the sequence below `SCALE`.
pub proof fn lemma_renorm_props(tn: Seq<int>)
    requires
        all_nonneg(tn),
        renorm_val(tn) is Some,
    ensures
        renorm_val(tn).unwrap().len() == tn.len(),
        all_nonneg(renorm_val(tn).unwrap()),
        forall|i: int|
            0 <= i < tn.len() ==> #[trigger] renorm_val(tn).unwrap()[i] <= SCALE as int,
        seq_sum(renorm_val(tn).unwrap()) <= SCALE as int,
        seq_sum(renorm_val(tn).unwrap()) >= SCALE as int - tn.len(),
{
    let ts = seq_sum(tn);
    let t2 = Seq::new(tn.len(), |i: int| fxp_div_val(tn[i], ts));
    assert forall|i: int| 0 <= i < tn.len() implies 0 <= #[trigger] t2[i] <= SCALE as int by {
        assert(tn[i] * (SCALE as int) >= 0) by (nonlinear_arith)
            requires
                tn[i] >= 0,
        ;
        vstd::arithmetic::div_mod::lemma_div_pos_is_pos(tn[i] * (SCALE as int), ts);
        lemma_seq_elem_le_sum(tn, i);
        vstd::arithmetic::mul::lemma_mul_inequality(tn[i], ts, SCALE as int);
        vstd::arithmetic::div_mod::lemma_div_is_ordered(
            tn[i] * (SCALE as int),
            ts * (SCALE as int),
            ts,
        );
        vstd::arithmetic::div_mod::lemma_div_multiples_vanish(SCALE as int, ts);
    }
    lemma_renorm_sum_bounds(tn, ts, tn.len() as int);
    lemma_seq_sum_take_all(tn);
    lemma_seq_sum_take_all(t2);
    vstd::arithmetic::div_mod::lemma_div_multiples_vanish(SCALE as int, ts);
    assert(ts * (SCALE as int) == seq_sum(tn.take(tn.len() as int)) * (SCALE as int));
}

/// A candidate accepted by the backtracking search is non-negative everywhere
/// and as long as the state it came from.
pub proof fn lemma_backtrack_nonneg(t: Seq<int>, gn: Seq<int>, d: Seq<int>, step: nat)
    ensures
        backtrack_val(t, gn, d, step) is Some ==> {
            &&& all_nonneg(backtrack_val(t, gn, d, step).unwrap())
            &&& backtrack_val(t, gn, d, step).unwrap().len() == t.len()
        },
    decreases step,
{
    if cands_ok(t, gn, d, step as int) {
        if all_nonneg(cand_seq(t, gn, d, step as int)) {
        } else if step > 0 {
            lemma_backtrack_nonneg(t, gn, d, step / 2);
        }
    }
}

/// A completed outer iteration keeps the length of the state and lands on
/// the (rounded) simplex: coordinates in `[0, SCALE]`, sum within the number
/// of workers below `SCALE`.
pub proof fn lemma_step_once_props(x: Seq<int>, c: Seq<int>, d: Seq<int>, t: Seq<int>, p: nat)
    requires
        t.len() == x.len(),
    ensures
        step_once_val(x, c, d, t, p) is Some ==> {
            &&& step_once_val(x, c, d, t, p).unwrap().len() == x.len()
            &&& all_nonneg(step_once_val(x, c, d, t, p).unwrap())
            &&& forall|i: int|
                0 <= i < x.len() ==> #[trigger] step_once_val(x, c, d, t, p).unwrap()[i]
                    <= SCALE as int
            &&& seq_sum(step_once_val(x, c, d, t, p).unwrap()) <= SCALE as int
            &&& seq_sum(step_once_val(x, c, d, t, p).unwrap()) >= SCALE as int - x.len()
        },
{
    if step_once_val(x, c, d, t, p) is Some {
        let gs = seq_sum(grad_seq(x, c, t, p));
        let mean = gs / (x.len() as int);
        let gn = proj_seq(grad_seq(x, c, t, p), mean);
        let tn = backtrack_val(t, gn, d, SCALE as nat).unwrap();
        lemma_backtrack_nonneg(t, gn, d, SCALE as nat);
        lemma_renorm_props(tn);
    }
}

/// Any number of completed outer iterations (at least one) lands on the
/// rounded simplex.
pub proof fn lemma_iterate_props(x: Seq<int>, c: Seq<int>, d: Seq<int>, t: Seq<int>, p: nat, k: nat)
    requires
        t.len() == x.len(),
        k >= 1,
    ensures
        iterate_val(x, c, d, t, p, k) is Some ==> {
            &&& iterate_val(x, c, d, t, p, k).unwrap().len() == x.len()
            &&& all_nonneg(iterate_val(x, c, d, t, p, k).unwrap())
            &&& forall|i: int|
                0 <= i < x.len() ==> #[trigger] iterate_val(x, c, d, t, p, k).unwrap()[i]
                    <= SCALE as int
            &&& seq_sum(iterate_val(x, c, d, t, p, k).unwrap()) <= SCALE as int
            &&& seq_sum(iterate_val(x, c, d, t, p, k).unwrap()) >= SCALE as int - x.len()
        },
    decreases k,
{
    lemma_step_once_props(x, c, d, t, p);
    match step_once_val(x, c, d, t, p) {
        Option::None => {},
        Option::Some(t2) => {
            if k > 1 {
                lemma_iterate_props(x, c, d, t2, p, (k - 1) as nat);
            }
        },
    }
}

/// Simplex invariant for any iteration budget of at least one: every
/// allocation the solver returns has all coordinates in `[0, SCALE]` (that
/// is, in `[0, 1]` as fixed-point fractions) and sums to `SCALE` up to one
/// rounding unit per worker.
pub proof fn lemma_solve_budget_simplex(x: Seq<int>, c: Seq<int>, p: nat, k: nat, t: Seq<int>)
    requires
        x.len() == c.len(),
        x.len() >= 1,
        k >= 1,
        solve_budget_val(x, c, p, k) == Some(t),
    ensures
        t.len() == x.len(),
        all_nonneg(t),
        forall|i: int| 0 <= i < t.len() ==> #[trigger] t[i] <= SCALE as int,
        seq_sum(t) <= SCALE as int,
        seq_sum(t) >= SCALE as int - x.len(),
{
    lemma_iterate_props(x, c, denom_seq(x, c, p), init_alloc(x.len()), p, k);
}

/// Simplex invariant: every allocation the baseline solver returns has all
/// coordinates in `[0, SCALE]` and sums to `SCALE` up to one rounding unit
/// per worker.
pub proof fn lemma_solve_simplex(x: Seq<int>, c: Seq<int>, p: nat, t: Seq<int>)
    requires
        x.len() == c.len(),
        x.len() >= 1,
        solve_val(x, c, p) == Some(t),
    ensures
        t.len() == x.len(),
        all_nonneg(t),
        forall|i: int| 0 <= i < t.len() ==> #[trigger] t[i] <= SCALE as int,
        seq_sum(t) <= SCALE as int,
        seq_sum(t) >= SCALE as int - x.len(),
{
    lemma_solve_budget_simplex(x, c, p, ITERS as nat, t);
}

/// At step zero the candidate reproduces the state itself.
pub proof fn lemma_cand_zero_step(t: Seq<int>, gn: Seq<int>, d: Seq<int>)
    requires
        forall|i: int| 0 <= i < t.len() ==> 0 <= #[trigger] t[i] <= u64::MAX,
        forall|i: int| 0 <= i < t.len() ==> #[trigger] d[i] > 0,
    ensures
        forall|i: int|
            0 <= i < t.len() ==> #[trigger] cand_val(t[i], gn[i], d[i], 0) == Some(t[i]),
{
    assert forall|i: int| 0 <= i < t.len() implies #[trigger] cand_val(t[i], gn[i], d[i], 0)
        == Some(t[i]) by {
        assert(0 * abs_val(gn[i]) == 0);
        vstd::arithmetic::div_mod::lemma_div_of0(SCALE as int);
        assert(fxp_mul_val(0, abs_val(gn[i])) == 0);
        assert(0 * (SCALE as int) == 0);
        vstd::arithmetic::div_mod::lemma_div_of0(d[i]);
        assert(delta_val(0, gn[i], d[i]) == Some(0int));
    }
}

/// When the projected gradient vanishes everywhere, the candidate at any
/// step reproduces the state itself.
proof fn lemma_cand_zero_grad(t: Seq<int>, gn: Seq<int>, d: Seq<int>, step: int)
    requires
        forall|i: int| 0 <= i < t.len() ==> #[trigger] gn[i] == 0,
        forall|i: int| 0 <= i < t.len() ==> #[trigger] d[i] > 0,
    ensures
        forall|i: int|
            0 <= i < t.len() ==> #[trigger] cand_val(t[i], gn[i], d[i], step) == Some(t[i]),
{
    assert forall|i: int| 0 <= i < t.len() implies #[trigger] cand_val(t[i], gn[i], d[i], step)
        == Some(t[i]) by {
        assert(abs_val(gn[i]) == 0);
        assert(step * 0 == 0);
        vstd::arithmetic::div_mod::lemma_div_of0(SCALE as int);
        assert(fxp_mul_val(step, 0) == 0);
        assert(0 * (SCALE as int) == 0);
        vstd::arithmetic::div_mod::lemma_div_of0(d[i]);
        assert(delta_val(step, gn[i], d[i]) == Some(0int));
    }
}

/// One outer iteration from a uniform state stays uniform: with equal
/// transfer delays and compute rates the gradient is constant, its
/// tangent-space projection vanishes, and the step and rescale keep every
/// coordinate equal.
proof fn lemma_step_once_uniform(x: Seq<int>, c: Seq<int>, d: Seq<int>, t: Seq<int>, p: nat)
    requires
        x.len() == c.len(),
        t.len() == x.len(),
        x.len() >= 1,
        all_equal(x),
        all_equal(c),
        all_equal(t),
        all_nonneg(t),
        forall|i: int| 0 <= i < x.len() ==> #[trigger] d[i] > 0,
    ensures
        step_once_val(x, c, d, t, p) is Some ==> all_equal(step_once_val(x, c, d, t, p).unwrap()),
{
    if step_once_val(x, c, d, t, p) is Some {
        let n = x.len() as int;
        let g = grad_seq(x, c, t, p);
        assert forall|i: int| 0 <= i < n implies #[trigger] g[i] == g[0] by {
            assert(x[i] == x[0]);
            assert(c[i] == c[0]);
            assert(t[i] == t[0]);
        }
        let gs = seq_sum(g);
        lemma_seq_sum_const(g, g[0]);
        vstd::arithmetic::div_mod::lemma_div_multiples_vanish(g[0], n);
        assert(n * g[0] == g.len() * g[0]);
        let mean = gs / n;
        assert(mean == g[0]);
        let gn = proj_seq(g, mean);
        assert forall|i: int| 0 <= i < n implies #[trigger] gn[i] == 0 by {
            assert(g[i] == g[0]);
        }
        lemma_cand_zero_grad(t, gn, d, SCALE as int);
        let tn = cand_seq(t, gn, d, SCALE as int);
        assert(tn =~= t);
        assert(backtrack_val(t, gn, d, SCALE as nat) == Some(t));
        let ts = seq_sum(t);
        let t2 = renorm_val(t).unwrap();
        assert forall|i: int| 0 <= i < t2.len() implies #[trigger] t2[i] == t2[0] by {
            assert(t[i] == t[0]);
        }
    }
}

/// Any number of outer iterations from a uniform state stays uniform.
proof fn lemma_iterate_uniform(x: Seq<int>, c: Seq<int>, d: Seq<int>, t: Seq<int>, p: nat, k: nat)
    requires
        x.len() == c.len(),
        t.len() == x.len(),
        x.len() >= 1,
        all_equal(x),
        all_equal(c),
        all_equal(t),
        all_nonneg(t),
        forall|i: int| 0 <= i < x.len() ==> #[trigger] d[i] > 0,
    ensures
        iterate_val(x, c, d, t, p, k) is Some ==> all_equal(iterate_val(x, c, d, t, p, k).unwrap()),
    decreases k,
{
    if k > 0 {
        lemma_step_once_uniform(x, c, d, t, p);
        lemma_step_once_props(x, c, d, t, p);
        match step_once_val(x, c, d, t, p) {
            Option::None => {},
            Option::Some(t2) => {
                lemma_iterate_uniform(x, c, d, t2, p, (k - 1) as nat);
            },
        }
    }
}

/// Symmetry for any iteration budget: when the transfer delays are constant
/// across the workers and the compute rates are constant across the workers,
/// the returned allocation is uniform.
pub proof fn lemma_solve_budget_symmetry(x: Seq<int>, c: Seq<int>, p: nat, k: nat, t: Seq<int>)
    requires
        x.len() == c.len(),
        x.len() >= 1,
        all_equal(x),
        all_equal(c),
        solve_budget_val(x, c, p, k) == Some(t),
    ensures
        all_equal(t),
{
    let n = x.len();
    let d = denom_seq(x, c, p);
    assert forall|i: int| 0 <= i < x.len() implies #[trigger] d[i] > 0 by {
        assert(match denom_val(x[i], c[i], p) {
            Option::Some(dv) => dv > 0,
            Option::None => false,
        });
    }
    let t0 = init_alloc(n);
    assert(all_equal(t0));
    assert forall|i: int| 0 <= i < t0.len() implies t0[i] >= 0 by {
        vstd::arithmetic::div_mod::lemma_div_pos_is_pos(SCALE as int, n as int);
    }
    lemma_iterate_uniform(x, c, d, t0, p, k);
}

/// Symmetry: when the transfer delays are constant across the workers and
/// the compute rates are constant across the workers, the returned
/// allocation is uniform.
pub proof fn lemma_solve_symmetry(x: Seq<int>, c: Seq<int>, p: nat, t: Seq<int>)
    requires
        x.len() == c.len(),
        x.len() >= 1,
        all_equal(x),
        all_equal(c),
        solve_val(x, c, p) == Some(t),
    ensures
        all_equal(t),
{
    lemma_solve_budget_symmetry(x, c, p, ITERS as nat, t);
}

/// Idempotent re-solve: the solver is a pure function of its inputs, so two

/// Idempotent re-solve: the solver is a pure function of its inputs, so two
/// successful runs on identical inputs return the identical allocation.
pub proof fn lemma_resolve_identical(x: Seq<int>, c: Seq<int>, p: nat, t1: Seq<int>, t2: Seq<int>)
    requires
        solve_val(x, c, p) == Some(t1),
        solve_val(x, c, p) == Some(t2),
    ensures
        t1 == t2,
{
}

} // verus!
