//! Fixed-point arithmetic on `u64` words.
//!
//! A value `v` stands for the real number `v / SCALE`.  Every operation is
//! checked: it returns `None` instead of wrapping when the mathematical
//! result does not fit in a word, and its contract says exactly which of the
//! two happens.

use vstd::prelude::*;

verus! {

/// Number of fixed-point steps per unit: a word `v` stands for `v / SCALE`.
pub const SCALE: u64 = 65536;

/// Mathematical fixed-point product, rounded down.
pub open spec fn fxp_mul_val(a: int, b: int) -> int {
    (a * b) / (SCALE as int)
}

/// Mathematical fixed-point quotient, rounded down.
pub open spec fn fxp_div_val(a: int, d: int) -> int {
    (a * (SCALE as int)) / d
}

/// Mathematical `k`-fold fixed-point power of `base`, starting from one;
/// `None` as soon as a partial product leaves the word range.
pub open spec fn fxp_pow_val(base: int, k: nat) -> Option<int>
    decreases k,
{
    if k == 0 {
        Some(SCALE as int)
    } else {
        match fxp_pow_val(base, (k - 1) as nat) {
            Option::None => None,
            Option::Some(v) => {
                if fxp_mul_val(v, base) > u64::MAX {
                    None
                } else {
                    Some(fxp_mul_val(v, base))
                }
            },
        }
    }
}

/// Fixed-point multiplication, `None` when the product leaves the word range.
pub fn fxp_mul(a: u64, b: u64) -> (r: Option<u64>)
    ensures
        0 <= fxp_mul_val(a as int, b as int),
        fxp_mul_val(a as int, b as int) <= u64::MAX ==> r == Some(
            fxp_mul_val(a as int, b as int) as u64,
        ),
        fxp_mul_val(a as int, b as int) > u64::MAX ==> r is None,
{
    proof {
        assert((a as int) * (b as int) <= u128::MAX) by (nonlinear_arith)
            requires
                a <= u64::MAX,
                b <= u64::MAX,
        ;
        assert((a as int) * (b as int) >= 0) by (nonlinear_arith)
            requires
                a >= 0,
                b >= 0,
        ;
    }
    let p: u128 = (a as u128) * (b as u128);
    let q: u128 = p / (SCALE as u128);
    proof {
        vstd::arithmetic::div_mod::lemma_div_pos_is_pos((a as int) * (b as int), SCALE as int);
    }
    if q <= u64::MAX as u128 {
        Some(q as u64)
    } else {
        None
    }
}

/// Fixed-point division by a positive divisor, `None` when the quotient
/// leaves the word range.
pub fn fxp_div(a: u64, d: u64) -> (r: Option<u64>)
    requires
        d > 0,
    ensures
        0 <= fxp_div_val(a as int, d as int),
        fxp_div_val(a as int, d as int) <= u64::MAX ==> r == Some(
            fxp_div_val(a as int, d as int) as u64,
        ),
        fxp_div_val(a as int, d as int) > u64::MAX ==> r is None,
{
    proof {
        assert((a as int) * (SCALE as int) <= u128::MAX) by (nonlinear_arith)
            requires
                a <= u64::MAX,
        ;
        assert((a as int) * (SCALE as int) >= 0) by (nonlinear_arith)
            requires
                a >= 0,
        ;
    }
    let p: u128 = (a as u128) * (SCALE as u128);
    let q: u128 = p / (d as u128);
    proof {
        vstd::arithmetic::div_mod::lemma_div_pos_is_pos((a as int) * (SCALE as int), d as int);
    }
    if q <= u64::MAX as u128 {
        Some(q as u64)
    } else {
        None
    }
}

/// Plain (not fixed-point) product, `None` when it leaves the word range.
pub fn word_mul(a: u64, b: u64) -> (r: Option<u64>)
    ensures
        a * b <= u64::MAX ==> r == Some((a * b) as u64),
        a * b > u64::MAX ==> r is None,
{
    proof {
        assert((a as int) * (b as int) <= u128::MAX) by (nonlinear_arith)
            requires
                a <= u64::MAX,
                b <= u64::MAX,
        ;
    }
    let p: u128 = (a as u128) * (b as u128);
    if p <= u64::MAX as u128 {
        Some(p as u64)
    } else {
        None
    }
}

/// Checked addition, `None` when the sum leaves the word range.
pub fn word_add(a: u64, b: u64) -> (r: Option<u64>)
    ensures
        a + b <= u64::MAX ==> r == Some((a + b) as u64),
        a + b > u64::MAX ==> r is None,
{
    if a <= u64::MAX - b {
        Some(a + b)
    } else {
        None
    }
}

/// Every defined fixed-point power of a non-negative base stays in the word
/// range and is itself non-negative.
pub proof fn lemma_fxp_pow_range(base: int, k: nat)
    requires
        0 <= base,
    ensures
        fxp_pow_val(base, k) is Some ==> 0 <= fxp_pow_val(base, k).unwrap() <= u64::MAX,
    decreases k,
{
    if k > 0 {
        lemma_fxp_pow_range(base, (k - 1) as nat);
        match fxp_pow_val(base, (k - 1) as nat) {
            None => {},
            Some(v) => {
                assert(v * base >= 0) by (nonlinear_arith)
                    requires
                        v >= 0,
                        base >= 0,
                ;
                vstd::arithmetic::div_mod::lemma_div_pos_is_pos(v * base, SCALE as int);
            },
        }
    }
}

/// Once a fixed-point power is undefined, every higher power is undefined.
pub proof fn lemma_fxp_pow_none(base: int, j: nat, k: nat)
    requires
        fxp_pow_val(base, j) is None,
        j <= k,
    ensures
        fxp_pow_val(base, k) is None,
    decreases k,
{
    if k > j {
        lemma_fxp_pow_none(base, j, (k - 1) as nat);
    }
}

/// Fixed-point power by iterated multiplication, `None` when any partial
/// product leaves the word range.
pub fn fxp_pow(base: u64, k: u64) -> (r: Option<u64>)
    ensures
        match fxp_pow_val(base as int, k as nat) {
            Option::Some(v) => r == Some(v as u64) && 0 <= v <= u64::MAX,
            Option::None => r is None,
        },
{
    let mut acc: u64 = SCALE;
    let mut j: u64 = 0;
    while j < k
        invariant
            j <= k,
            fxp_pow_val(base as int, j as nat) == Some(acc as int),
        decreases k - j,
    {
        proof {
            lemma_fxp_pow_range(base as int, (j + 1) as nat);
        }
        let m = fxp_mul(acc, base);
        match m {
            Option::Some(v) => {
                acc = v;
            },
            Option::None => {
                proof {
                    assert(fxp_pow_val(base as int, (j + 1) as nat) is None);
                    lemma_fxp_pow_none(base as int, (j + 1) as nat, k as nat);
                }
                return None;
            },
        }
        j = j + 1;
    }
    Some(acc)
}

} // verus!
