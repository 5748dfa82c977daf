//! The allocation solver and the finish-time objective.
//!
//! Every function here is verified against the model in [`crate::model`]:
//! the solver promises that its result — allocation or fault — is exactly
//! what the model computes from the inputs, and the laws proved about the
//! model therefore hold of every value it returns.

use vstd::prelude::*;

use crate::fxp::fxp_div;
use crate::fxp::fxp_div_val;
use crate::fxp::fxp_mul;
use crate::fxp::fxp_pow;
use crate::fxp::word_add;
use crate::fxp::word_mul;
use crate::fxp::SCALE;
use crate::model::abs_val;
use crate::model::all_nonneg;
use crate::model::backtrack_val;
use crate::model::cand_seq;
use crate::model::cand_val;
use crate::model::cands_ok;
use crate::model::denom_seq;
use crate::model::denom_val;
use crate::model::denoms_ok;
use crate::model::finish_val;
use crate::model::grad_seq;
use crate::model::grad_val;
use crate::model::grads_ok;
use crate::model::init_alloc;
use crate::model::iterate_val;
use crate::model::lemma_cand_zero_step;
use crate::model::lemma_seq_elem_le_sum;
use crate::model::lemma_seq_sum_nonneg;
use crate::model::lemma_seq_sum_prefix_le;
use crate::model::lemma_seq_sum_take_all;
use crate::model::lemma_seq_sum_take_succ;
use crate::model::lemma_solve_budget_simplex;
use crate::model::proj_seq;
use crate::model::renorm_val;
use crate::model::seq_sum;
use crate::model::solve_budget_val;
use crate::model::solve_val;
use crate::model::step_once_val;
use crate::model::to_ints;
use crate::model::ITERS;

verus! {

/// A numerical fault: an intermediate value left the word range, a
/// majorizer coordinate vanished, or the allocation degenerated so that it
/// could not be renormalized.
#[derive(Clone, Copy, Debug, PartialEq, Eq, Structural)]
pub enum SolveError {
    NumericalFault,
}

/// Computes the majorizer vector `(p-1) * c[i]^2 * (x[i]+c[i])^(p-2)`,
/// `None` when a coordinate overflows or is zero (and so could not divide a
/// gradient step).
fn compute_denoms(x: &Vec<u64>, c: &Vec<u64>, p: u32) -> (r: Option<Vec<u64>>)
    requires
        x@.len() == c@.len(),
        p >= 2,
    ensures
        match r {
            Option::Some(d) => {
                &&& denoms_ok(to_ints(x@), to_ints(c@), p as nat)
                &&& to_ints(d@) == denom_seq(to_ints(x@), to_ints(c@), p as nat)
                &&& d@.len() == x@.len()
                &&& forall|j: int| 0 <= j < d@.len() ==> #[trigger] d@[j] > 0
            },
            Option::None => !denoms_ok(to_ints(x@), to_ints(c@), p as nat),
        },
{
    let ghost xm = to_ints(x@);
    let ghost cm = to_ints(c@);
    let n = x.len();
    let mut d: Vec<u64> = Vec::new();
    let mut i: usize = 0;
    while i < n
        invariant
            x@.len() == c@.len(),
            xm == to_ints(x@),
            cm == to_ints(c@),
            n == x@.len(),
            p >= 2,
            i <= n,
            d@.len() == i,
            forall|j: int|
                0 <= j < i ==> #[trigger] denom_val(xm[j], cm[j], p as nat) == Some(
                    d@[j] as int,
                ) && d@[j] > 0,
        decreases n - i,
    {
        let s = match word_add(x[i], c[i]) {
            Option::Some(s) => s,
            Option::None => {
                proof {
                    assert(denom_val(xm[i as int], cm[i as int], p as nat) is None);
                }
                return None;
            },
        };
        let w = match fxp_pow(s, (p - 2) as u64) {
            Option::Some(w) => w,
            Option::None => {
                proof {
                    assert(denom_val(xm[i as int], cm[i as int], p as nat) is None);
                }
                return None;
            },
        };
        let cc = match fxp_mul(c[i], c[i]) {
            Option::Some(cc) => cc,
            Option::None => {
                proof {
                    assert(denom_val(xm[i as int], cm[i as int], p as nat) is None);
                }
                return None;
            },
        };
        let m = match fxp_mul(cc, w) {
            Option::Some(m) => m,
            Option::None => {
                proof {
                    assert(denom_val(xm[i as int], cm[i as int], p as nat) is None);
                }
                return None;
            },
        };
        let dv = match word_mul((p - 1) as u64, m) {
            Option::Some(dv) => dv,
            Option::None => {
                proof {
                    assert(denom_val(xm[i as int], cm[i as int], p as nat) is None);
                }
                return None;
            },
        };
        if dv == 0 {
            proof {
                assert(denom_val(xm[i as int], cm[i as int], p as nat) == Some(0int));
            }
            return None;
        }
        proof {
            assert(denom_val(xm[i as int], cm[i as int], p as nat) == Some(dv as int));
        }
        d.push(dv);
        i = i + 1;
    }
    proof {
        assert forall|j: int| 0 <= j < xm.len() implies match #[trigger] denom_val(
            xm[j],
            cm[j],
            p as nat,
        ) {
            Option::Some(dv) => dv > 0,
            Option::None => false,
        } by {
            assert(denom_val(xm[j], cm[j], p as nat) == Some(d@[j] as int) && d@[j] > 0);
        }
        assert forall|j: int| 0 <= j < d@.len() implies #[trigger] d@[j] > 0 by {
            assert(denom_val(xm[j], cm[j], p as nat) == Some(d@[j] as int) && d@[j] > 0);
        }
        assert(to_ints(d@) =~= denom_seq(xm, cm, p as nat));
    }
    Some(d)
}

/// Computes the gradient vector `c[i] * (x[i] + c[i]*t[i])^(p-1)`, `None`
/// when a coordinate overflows.
fn compute_grads(x: &Vec<u64>, c: &Vec<u64>, t: &Vec<u64>, p: u32) -> (r: Option<Vec<u64>>)
    requires
        x@.len() == c@.len(),
        t@.len() == x@.len(),
        p >= 2,
    ensures
        match r {
            Option::Some(g) => {
                &&& grads_ok(to_ints(x@), to_ints(c@), to_ints(t@), p as nat)
                &&& to_ints(g@) == grad_seq(to_ints(x@), to_ints(c@), to_ints(t@), p as nat)
                &&& g@.len() == x@.len()
            },
            Option::None => !grads_ok(to_ints(x@), to_ints(c@), to_ints(t@), p as nat),
        },
{
    let ghost xm = to_ints(x@);
    let ghost cm = to_ints(c@);
    let ghost tm = to_ints(t@);
    let n = x.len();
    let mut g: Vec<u64> = Vec::new();
    let mut i: usize = 0;
    while i < n
        invariant
            x@.len() == c@.len(),
            t@.len() == x@.len(),
            xm == to_ints(x@),
            cm == to_ints(c@),
            tm == to_ints(t@),
            n == x@.len(),
            p >= 2,
            i <= n,
            g@.len() == i,
            forall|j: int|
                0 <= j < i ==> #[trigger] grad_val(xm[j], cm[j], tm[j], p as nat) == Some(
                    g@[j] as int,
                ),
        decreases n - i,
    {
        let m = match fxp_mul(c[i], t[i]) {
            Option::Some(m) => m,
            Option::None => {
                proof {
                    assert(grad_val(xm[i as int], cm[i as int], tm[i as int], p as nat) is None);
                }
                return None;
            },
        };
        if x[i] > u64::MAX - m {
            proof {
                assert(finish_val(xm[i as int], cm[i as int], tm[i as int]) is None);
                assert(grad_val(xm[i as int], cm[i as int], tm[i as int], p as nat) is None);
            }
            return None;
        }
        let f = x[i] + m;
        proof {
            assert(finish_val(xm[i as int], cm[i as int], tm[i as int]) == Some(f as int));
        }
        let w = match fxp_pow(f, (p - 1) as u64) {
            Option::Some(w) => w,
            Option::None => {
                proof {
                    assert(grad_val(xm[i as int], cm[i as int], tm[i as int], p as nat) is None);
                }
                return None;
            },
        };
        let gv = match fxp_mul(c[i], w) {
            Option::Some(gv) => gv,
            Option::None => {
                proof {
                    assert(grad_val(xm[i as int], cm[i as int], tm[i as int], p as nat) is None);
                }
                return None;
            },
        };
        proof {
            assert(grad_val(xm[i as int], cm[i as int], tm[i as int], p as nat) == Some(
                gv as int,
            ));
        }
        g.push(gv);
        i = i + 1;
    }
    proof {
        assert(to_ints(g@) =~= grad_seq(xm, cm, tm, p as nat));
    }
    Some(g)
}

/// Sums a vector of words, `None` when the sum leaves the word range.
fn sum_words(v: &Vec<u64>) -> (r: Option<u64>)
    ensures
        seq_sum(to_ints(v@)) <= u64::MAX ==> r == Some(seq_sum(to_ints(v@)) as u64),
        seq_sum(to_ints(v@)) > u64::MAX ==> r is None,
{
    let ghost vm = to_ints(v@);
    proof {
        assert(all_nonneg(vm));
    }
    let n = v.len();
    let mut acc: u64 = 0;
    let mut i: usize = 0;
    while i < n
        invariant
            vm == to_ints(v@),
            n == v@.len(),
            i <= n,
            acc as int == seq_sum(vm.take(i as int)),
        decreases n - i,
    {
        proof {
            lemma_seq_sum_take_succ(vm, i as int);
        }
        if acc > u64::MAX - v[i] {
            proof {
                assert(all_nonneg(vm));
                lemma_seq_sum_prefix_le(vm, i + 1);
            }
            return None;
        }
        acc = acc + v[i];
        i = i + 1;
    }
    proof {
        lemma_seq_sum_take_all(vm);
    }
    Some(acc)
}

/// Rescales the allocation onto the simplex by dividing every coordinate by
/// the sum; `None` when the sum overflows or vanishes.
fn renorm_alloc(tn: &Vec<u64>) -> (r: Option<Vec<u64>>)
    ensures
        match r {
            Option::Some(t2) => renorm_val(to_ints(tn@)) == Some(to_ints(t2@)) && t2@.len()
                == tn@.len(),
            Option::None => renorm_val(to_ints(tn@)) is None,
        },
{
    let ghost tnm = to_ints(tn@);
    proof {
        assert(all_nonneg(tnm));
        lemma_seq_sum_nonneg(tnm);
    }
    let ts = match sum_words(tn) {
        Option::Some(ts) => ts,
        Option::None => {
            return None;
        },
    };
    if ts == 0 {
        return None;
    }
    let n = tn.len();
    let mut t2: Vec<u64> = Vec::new();
    let mut i: usize = 0;
    while i < n
        invariant
            tnm == to_ints(tn@),
            n == tn@.len(),
            ts as int == seq_sum(tnm),
            ts > 0,
            i <= n,
            t2@.len() == i,
            forall|j: int| 0 <= j < i ==> t2@[j] as int == fxp_div_val(tnm[j], ts as int),
        decreases n - i,
    {
        proof {
            assert(all_nonneg(tnm));
            lemma_seq_elem_le_sum(tnm, i as int);
            vstd::arithmetic::mul::lemma_mul_inequality(tnm[i as int], ts as int, SCALE as int);
            vstd::arithmetic::div_mod::lemma_div_is_ordered(
                tnm[i as int] * (SCALE as int),
                (ts as int) * (SCALE as int),
                ts as int,
            );
            vstd::arithmetic::div_mod::lemma_div_multiples_vanish(SCALE as int, ts as int);
            assert((ts as int) * (SCALE as int) == (ts as int) * (SCALE as int));
            assert(fxp_div_val(tnm[i as int], ts as int) <= SCALE as int);
        }
        let q = match fxp_div(tn[i], ts) {
            Option::Some(q) => q,
            Option::None => {
                proof {
                    assert(false);
                }
                return None;
            },
        };
        t2.push(q);
        i = i + 1;
    }
    proof {
        assert(renorm_val(tnm).unwrap() =~= to_ints(t2@));
    }
    Some(t2)
}

/// Runs one outer iteration of the projected-gradient method, `None` on a
/// numerical fault.
#[verifier::loop_isolation(false)]
fn step_alloc(x: &Vec<u64>, c: &Vec<u64>, d: &Vec<u64>, t: &Vec<u64>, p: u32) -> (r: Option<
    Vec<u64>,
>)
    requires
        x@.len() == c@.len(),
        t@.len() == x@.len(),
        d@.len() == x@.len(),
        x@.len() >= 1,
        p >= 2,
        forall|j: int| 0 <= j < d@.len() ==> #[trigger] d@[j] > 0,
    ensures
        match r {
            Option::Some(t2) => step_once_val(
                to_ints(x@),
                to_ints(c@),
                to_ints(d@),
                to_ints(t@),
                p as nat,
            ) == Some(to_ints(t2@)) && t2@.len() == x@.len(),
            Option::None => step_once_val(
                to_ints(x@),
                to_ints(c@),
                to_ints(d@),
                to_ints(t@),
                p as nat,
            ) is None,
        },
{
    let ghost xm = to_ints(x@);
    let ghost cm = to_ints(c@);
    let ghost tm = to_ints(t@);
    let ghost dm = to_ints(d@);
    let ghost pm = p as nat;
    let n = x.len();

    // gradient of the smoothed objective
    let g = match compute_grads(x, c, t, p) {
        Option::Some(g) => g,
        Option::None => {
            return None;
        },
    };
    let ghost gseq = grad_seq(xm, cm, tm, pm);

    // projection onto the tangent space of the sum-to-one constraint
    let gs = match sum_words(&g) {
        Option::Some(gs) => gs,
        Option::None => {
            return None;
        },
    };
    let mean = gs / (n as u64);
    let ghost mean_m = seq_sum(gseq) / (xm.len() as int);
    let ghost gnm = proj_seq(gseq, mean_m);
    proof {
        assert(all_nonneg(gseq));
        lemma_seq_sum_nonneg(gseq);
        assert(mean as int == mean_m);
    }

    // the projected gradient, held as sign and magnitude
    let mut gn_neg: Vec<bool> = Vec::new();
    let mut gn_mag: Vec<u64> = Vec::new();
    let mut i: usize = 0;
    while i < n
        invariant
            i <= n,
            gn_neg@.len() == i,
            gn_mag@.len() == i,
            forall|j: int| 0 <= j < i ==> #[trigger] (gn_mag@[j] as int) == abs_val(gnm[j]),
            forall|j: int| 0 <= j < i ==> ((gnm[j] >= 0) <==> !(#[trigger] gn_neg@[j])),
        decreases n - i,
    {
        assert(gseq[i as int] == g@[i as int] as int);
        if g[i] >= mean {
            gn_neg.push(false);
            gn_mag.push(g[i] - mean);
        } else {
            gn_neg.push(true);
            gn_mag.push(mean - g[i]);
        }
        i = i + 1;
    }

    // backtracking line search: halve the step until the candidate is
    // feasible (non-negative everywhere)
    let mut step: u64 = SCALE;
    loop
        invariant
            backtrack_val(tm, gnm, dm, SCALE as nat) == backtrack_val(tm, gnm, dm, step as nat),
        decreases step,
    {
        let mut tn: Vec<u64> = Vec::new();
        let mut feasible: bool = true;
        let mut i2: usize = 0;
        while i2 < n
            invariant
                i2 <= n,
                tn@.len() == i2,
                forall|j: int|
                    0 <= j < i2 ==> #[trigger] cand_val(tm[j], gnm[j], dm[j], step as int)
                        is Some,
                feasible <==> (forall|j: int|
                    0 <= j < i2 ==> #[trigger] cand_val(
                        tm[j],
                        gnm[j],
                        dm[j],
                        step as int,
                    ).unwrap() >= 0),
                feasible ==> (forall|j: int|
                    0 <= j < i2 ==> #[trigger] (tn@[j] as int) == cand_val(
                        tm[j],
                        gnm[j],
                        dm[j],
                        step as int,
                    ).unwrap()),
            decreases n - i2,
        {
            let m1 = match fxp_mul(step, gn_mag[i2]) {
                Option::Some(m1) => m1,
                Option::None => {
                    proof {
                        assert(cand_val(tm[i2 as int], gnm[i2 as int], dm[i2 as int], step as int)
                            is None);
                        assert(!cands_ok(tm, gnm, dm, step as int));
                    }
                    return None;
                },
            };
            let q = match fxp_div(m1, d[i2]) {
                Option::Some(q) => q,
                Option::None => {
                    proof {
                        assert(cand_val(tm[i2 as int], gnm[i2 as int], dm[i2 as int], step as int)
                            is None);
                        assert(!cands_ok(tm, gnm, dm, step as int));
                    }
                    return None;
                },
            };
            if gn_neg[i2] {
                if t[i2] > u64::MAX - q {
                    proof {
                        assert(cand_val(tm[i2 as int], gnm[i2 as int], dm[i2 as int], step as int)
                            is None);
                        assert(!cands_ok(tm, gnm, dm, step as int));
                    }
                    return None;
                }
                tn.push(t[i2] + q);
                proof {
                    assert(cand_val(tm[i2 as int], gnm[i2 as int], dm[i2 as int], step as int)
                        == Some(tm[i2 as int] + q));
                }
            } else {
                if q <= t[i2] {
                    tn.push(t[i2] - q);
                    proof {
                        assert(cand_val(tm[i2 as int], gnm[i2 as int], dm[i2 as int], step as int)
                            == Some(tm[i2 as int] - q));
                    }
                } else {
                    feasible = false;
                    tn.push(0);
                    proof {
                        assert(cand_val(tm[i2 as int], gnm[i2 as int], dm[i2 as int], step as int)
                            == Some(tm[i2 as int] - q));
                        assert(cand_val(
                            tm[i2 as int],
                            gnm[i2 as int],
                            dm[i2 as int],
                            step as int,
                        ).unwrap() < 0);
                    }
                }
            }
            i2 = i2 + 1;
        }
        if feasible {
            proof {
                assert(cand_seq(tm, gnm, dm, step as int) =~= to_ints(tn@));
                assert forall|j: int|
                    0 <= j < n implies #[trigger] cand_seq(tm, gnm, dm, step as int)[j]
                    >= 0 by {
                    assert(cand_val(tm[j], gnm[j], dm[j], step as int).unwrap() >= 0);
                }
                assert(all_nonneg(cand_seq(tm, gnm, dm, step as int)));
                assert(backtrack_val(tm, gnm, dm, step as nat) == Some(to_ints(tn@)));
            }
            let t2 = match renorm_alloc(&tn) {
                Option::Some(t2) => t2,
                Option::None => {
                    return None;
                },
            };
            return Some(t2);
        }
        proof {
            if all_nonneg(cand_seq(tm, gnm, dm, step as int)) {
                assert forall|j: int|
                    0 <= j < n implies #[trigger] cand_val(
                    tm[j],
                    gnm[j],
                    dm[j],
                    step as int,
                ).unwrap() >= 0 by {
                    assert(cand_seq(tm, gnm, dm, step as int)[j] >= 0);
                }
                assert(false);
            }
            if step == 0 {
                lemma_cand_zero_step(tm, gnm, dm);
                assert forall|j: int|
                    0 <= j < n implies #[trigger] cand_val(
                    tm[j],
                    gnm[j],
                    dm[j],
                    step as int,
                ).unwrap() >= 0 by {
                    assert(cand_val(tm[j], gnm[j], dm[j], 0) == Some(tm[j]));
                }
                assert(false);
            }
        }
        step = step / 2;
    }
}

/// Divides a unit workload across workers with an explicit budget of outer
/// iterations (at least one).
///
/// `transfer_times` and `compute_times` are parallel fixed-point vectors
/// (scale [`SCALE`]): worker `i` can start computing after `transfer_times[i]`
/// and spends `compute_times[i]` per unit of work.  The smoothing exponent
/// `p` must be even and at least two; larger values track the exact min-max
/// objective more closely.  The solver minimizes the smooth surrogate
/// `sum_i (x[i] + c[i]*t[i])^p` over the probability simplex by a
/// majorize-minimize projected-gradient method.
///
/// The result is exactly what the model [`solve_budget_val`] computes: on
/// success an allocation with every coordinate in `[0, SCALE]` and a sum
/// within one rounding unit per worker of `SCALE`; otherwise the numerical
/// fault.
#[verifier::loop_isolation(false)]
pub fn divide_work_smooth_budget(
    transfer_times: &Vec<u64>,
    compute_times: &Vec<u64>,
    p: u32,
    iters: u64,
) -> (r: Result<Vec<u64>, SolveError>)
    requires
        transfer_times@.len() == compute_times@.len(),
        transfer_times@.len() >= 1,
        p >= 2,
        p % 2 == 0,
        iters >= 1,
    ensures
        match r {
            Result::Ok(t) => {
                &&& solve_budget_val(
                    to_ints(transfer_times@),
                    to_ints(compute_times@),
                    p as nat,
                    iters as nat,
                ) == Some(to_ints(t@))
                &&& t@.len() == transfer_times@.len()
                &&& forall|i: int| 0 <= i < t@.len() ==> #[trigger] t@[i] <= SCALE
                &&& seq_sum(to_ints(t@)) <= SCALE as int
                &&& seq_sum(to_ints(t@)) >= SCALE as int - t@.len()
            },
            Result::Err(e) => {
                &&& solve_budget_val(
                    to_ints(transfer_times@),
                    to_ints(compute_times@),
                    p as nat,
                    iters as nat,
                ) is None
                &&& e == SolveError::NumericalFault
            },
        },
{
    let ghost xm = to_ints(transfer_times@);
    let ghost cm = to_ints(compute_times@);
    let ghost pm = p as nat;
    let n = transfer_times.len();

    // majorizer, computed once
    let d = match compute_denoms(transfer_times, compute_times, p) {
        Option::Some(d) => d,
        Option::None => {
            return Err(SolveError::NumericalFault);
        },
    };
    let ghost dm = to_ints(d@);

    // uniform starting allocation
    let unit = SCALE / (n as u64);
    let mut t: Vec<u64> = Vec::new();
    let mut i: usize = 0;
    while i < n
        invariant
            i <= n,
            t@.len() == i,
            forall|j: int| 0 <= j < i ==> #[trigger] t@[j] == unit,
        decreases n - i,
    {
        t.push(unit);
        i = i + 1;
    }
    proof {
        assert(to_ints(t@) =~= init_alloc(n as nat));
    }

    // the budgeted outer iterations
    let mut k: u64 = 0;
    while k < iters
        invariant
            k <= iters,
            t@.len() == n,
            iterate_val(xm, cm, dm, to_ints(t@), pm, (iters - k) as nat) == iterate_val(
                xm,
                cm,
                dm,
                init_alloc(n as nat),
                pm,
                iters as nat,
            ),
        decreases iters - k,
    {
        let t2 = match step_alloc(transfer_times, compute_times, &d, &t, p) {
            Option::Some(t2) => t2,
            Option::None => {
                proof {
                    assert(iterate_val(xm, cm, dm, to_ints(t@), pm, (iters - k) as nat)
                        is None);
                }
                return Err(SolveError::NumericalFault);
            },
        };
        proof {
            assert(iterate_val(xm, cm, dm, to_ints(t@), pm, (iters - k) as nat) == iterate_val(
                xm,
                cm,
                dm,
                to_ints(t2@),
                pm,
                (iters - k - 1) as nat,
            ));
        }
        t = t2;
        k = k + 1;
    }
    proof {
        assert(iterate_val(xm, cm, dm, to_ints(t@), pm, 0) == Some(to_ints(t@)));
        assert(solve_budget_val(xm, cm, pm, iters as nat) == Some(to_ints(t@)));
        lemma_solve_budget_simplex(xm, cm, pm, iters as nat, to_ints(t@));
        assert forall|j: int| 0 <= j < t@.len() implies #[trigger] t@[j] <= SCALE by {
            assert(to_ints(t@)[j] <= SCALE as int);
        }
    }
    Ok(t)
}

/// Divides a unit workload across workers so that they finish as close to
/// simultaneously as possible, with the baseline budget of [`ITERS`] outer
/// iterations.
///
/// The result is exactly what the model [`solve_val`] computes: on success
/// an allocation with every coordinate in `[0, SCALE]` and a sum within one
/// rounding unit per worker of `SCALE`; otherwise the numerical fault.
pub fn divide_work_smooth(transfer_times: &Vec<u64>, compute_times: &Vec<u64>, p: u32) -> (r:
    Result<Vec<u64>, SolveError>)
    requires
        transfer_times@.len() == compute_times@.len(),
        transfer_times@.len() >= 1,
        p >= 2,
        p % 2 == 0,
    ensures
        match r {
            Result::Ok(t) => {
                &&& solve_val(to_ints(transfer_times@), to_ints(compute_times@), p as nat)
                    == Some(to_ints(t@))
                &&& t@.len() == transfer_times@.len()
                &&& forall|i: int| 0 <= i < t@.len() ==> #[trigger] t@[i] <= SCALE
                &&& seq_sum(to_ints(t@)) <= SCALE as int
                &&& seq_sum(to_ints(t@)) >= SCALE as int - t@.len()
            },
            Result::Err(e) => {
                &&& solve_val(to_ints(transfer_times@), to_ints(compute_times@), p as nat)
                    is None
                &&& e == SolveError::NumericalFault
            },
        },
{
    divide_work_smooth_budget(transfer_times, compute_times, p, ITERS)
}

/// Worst-case finish time of an allocation: `max_i (x[i] + c[i]*t[i])` in
/// fixed point.  Every finish time is non-negative here, so this is the
/// L-infinity norm of the finish-time vector.  `None` when a finish time
/// leaves the word range.
pub fn cost(t: &Vec<u64>, x: &Vec<u64>, c: &Vec<u64>) -> (r: Option<u64>)
    requires
        t@.len() == x@.len(),
        x@.len() == c@.len(),
    ensures
        match r {
            Option::Some(m) => {
                &&& forall|i: int|
                    0 <= i < x@.len() ==> match #[trigger] finish_val(
                        x@[i] as int,
                        c@[i] as int,
                        t@[i] as int,
                    ) {
                        Option::Some(f) => f <= m as int,
                        Option::None => false,
                    }
                &&& (x@.len() == 0 ==> m == 0)
                &&& (x@.len() > 0 ==> exists|i: int|
                    0 <= i < x@.len() && #[trigger] finish_val(
                        x@[i] as int,
                        c@[i] as int,
                        t@[i] as int,
                    ) == Some(m as int))
            },
            Option::None => exists|i: int|
                0 <= i < x@.len() && #[trigger] finish_val(
                    x@[i] as int,
                    c@[i] as int,
                    t@[i] as int,
                ) is None,
        },
{
    let n = x.len();
    let mut best: u64 = 0;
    let mut i: usize = 0;
    while i < n
        invariant
            t@.len() == x@.len(),
            x@.len() == c@.len(),
            n == x@.len(),
            i <= n,
            forall|j: int|
                0 <= j < i ==> match #[trigger] finish_val(
                    x@[j] as int,
                    c@[j] as int,
                    t@[j] as int,
                ) {
                    Option::Some(f) => f <= best as int,
                    Option::None => false,
                },
            i == 0 ==> best == 0,
            i > 0 ==> exists|j: int|
                0 <= j < i && #[trigger] finish_val(x@[j] as int, c@[j] as int, t@[j] as int)
                    == Some(best as int),
        decreases n - i,
    {
        let m = match fxp_mul(c[i], t[i]) {
            Option::Some(m) => m,
            Option::None => {
                proof {
                    assert(finish_val(x@[i as int] as int, c@[i as int] as int, t@[i as int] as int)
                        is None);
                }
                return None;
            },
        };
        if x[i] > u64::MAX - m {
            proof {
                assert(finish_val(x@[i as int] as int, c@[i as int] as int, t@[i as int] as int)
                    is None);
            }
            return None;
        }
        let f = x[i] + m;
        proof {
            assert(finish_val(x@[i as int] as int, c@[i as int] as int, t@[i as int] as int)
                == Some(f as int));
        }
        if f > best {
            best = f;
        }
        i = i + 1;
    }
    Some(best)
}

} // verus!

