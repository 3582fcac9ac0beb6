//! The per-step solver: given the root built so far and the running
//! remainder, find the largest next decimal root digit `beta` satisfying
//! `(10*y + beta)^n - bdp*y^n <= bdp*r + alpha`, and the new remainder.

use vstd::prelude::*;

verus! {

use vstd::arithmetic::power::pow;
use vstd::arithmetic::mul::lemma_mul_nonnegative;
use crate::RootError;
use crate::power::pow_u64;
use crate::power::lemma_pow_nonnegative;
use crate::power::lemma_pow_base_increases;

/// How far the candidate root `10*rax + beta` raised to the degree sits above
/// the scaled power of the previous root. The `beta == 0` baseline is 0 by
/// definition: widening the root by a zero digit consumes nothing.
pub open spec fn step_delta(rax: int, bdp: int, degree: nat, beta: int) -> int {
    if beta == 0 {
        0
    } else {
        pow(10 * rax + beta, degree) - bdp * pow(rax, degree)
    }
}

/// The step inequality: digit `beta` still fits under the scaled remainder
/// plus the incoming digit group.
pub open spec fn step_accepts(
    rax: int,
    rem: int,
    bdp: int,
    alpha: int,
    degree: nat,
    beta: int,
) -> bool {
    step_delta(rax, bdp, degree, beta) <= bdp * rem + alpha
}

/// The largest digit in `0..=k` that the step inequality accepts (0 when none
/// above 0 is accepted).
pub open spec fn largest_beta_upto(
    rax: int,
    rem: int,
    bdp: int,
    alpha: int,
    degree: nat,
    k: nat,
) -> nat
    decreases k,
{
    if k == 0 {
        0
    } else if step_accepts(rax, rem, bdp, alpha, degree, k as int) {
        k
    } else {
        largest_beta_upto(rax, rem, bdp, alpha, degree, (k - 1) as nat)
    }
}

/// The digit the solver accepts: the largest decimal digit satisfying the
/// step inequality.
pub open spec fn chosen_beta(rax: int, rem: int, bdp: int, alpha: int, degree: nat) -> nat {
    largest_beta_upto(rax, rem, bdp, alpha, degree, 9)
}

/// The inputs on which the solver's `u64` arithmetic would not fit.
pub open spec fn step_overflows(rax: int, rem: int, bdp: int, alpha: int, degree: nat) -> bool {
    ||| 10 * rax + 9 > u64::MAX
    ||| pow(rax, degree) > u64::MAX
    ||| bdp * pow(rax, degree) + bdp * rem + alpha > u64::MAX
}

/// The step inequality is monotone in the digit, so the largest accepted
/// digit is the one right before the first rejected one.
proof fn lemma_step_delta_monotone(rax: int, bdp: int, degree: nat, b1: int, b2: int)
    requires
        degree >= 1,
        0 <= rax,
        0 <= bdp <= pow(10, degree),
        0 <= b1 <= b2,
    ensures
        step_delta(rax, bdp, degree, b1) <= step_delta(rax, bdp, degree, b2),
{
    lemma_pow_nonnegative(rax, degree);
    if b1 == b2 {
    } else if b1 == 0 {
        // delta(b2) >= pow(10*rax, degree) - bdp*pow(rax, degree) >= 0.
        lemma_pow_base_increases(10 * rax, 10 * rax + b2, degree);
        vstd::arithmetic::power::lemma_pow_distributes(10, rax, degree);
        assert(bdp * pow(rax, degree) <= pow(10, degree) * pow(rax, degree)) by (nonlinear_arith)
            requires
                0 <= bdp <= pow(10, degree),
                0 <= pow(rax, degree),
        ;
    } else {
        lemma_pow_base_increases(10 * rax + b1, 10 * rax + b2, degree);
    }
}

/// What `largest_beta_upto` returns: an accepted digit (or 0), below every
/// rejected digit.
proof fn lemma_largest_beta_upto_props(
    rax: int,
    rem: int,
    bdp: int,
    alpha: int,
    degree: nat,
    k: nat,
)
    requires
        0 <= bdp,
        0 <= rem,
        0 <= alpha,
    ensures
        largest_beta_upto(rax, rem, bdp, alpha, degree, k) <= k,
        step_accepts(rax, rem, bdp, alpha, degree, largest_beta_upto(rax, rem, bdp, alpha, degree, k) as int),
        forall|b: int|
            largest_beta_upto(rax, rem, bdp, alpha, degree, k) < b <= k ==> !step_accepts(
                rax,
                rem,
                bdp,
                alpha,
                degree,
                b,
            ),
    decreases k,
{
    lemma_mul_nonnegative(bdp, rem);
    if k == 0 {
    } else if step_accepts(rax, rem, bdp, alpha, degree, k as int) {
    } else {
        lemma_largest_beta_upto_props(rax, rem, bdp, alpha, degree, (k - 1) as nat);
    }
}

/// The digit the solver picks is accepted, and every larger digit up to 9 is
/// rejected.
pub proof fn lemma_chosen_beta_props(rax: int, rem: int, bdp: int, alpha: int, degree: nat)
    requires
        0 <= bdp,
        0 <= rem,
        0 <= alpha,
    ensures
        chosen_beta(rax, rem, bdp, alpha, degree) <= 9,
        step_accepts(rax, rem, bdp, alpha, degree, chosen_beta(rax, rem, bdp, alpha, degree) as int),
        forall|b: int|
            chosen_beta(rax, rem, bdp, alpha, degree) < b <= 9 ==> !step_accepts(
                rax,
                rem,
                bdp,
                alpha,
                degree,
                b,
            ),
{
    lemma_largest_beta_upto_props(rax, rem, bdp, alpha, degree, 9);
}

/// `largest_beta_upto(.., 9)` is pinned by one accepted digit above which all
/// digits are rejected.
proof fn lemma_largest_beta_upto_is(
    rax: int,
    rem: int,
    bdp: int,
    alpha: int,
    degree: nat,
    k: nat,
    j: nat,
)
    requires
        j <= k,
        j == 0 || step_accepts(rax, rem, bdp, alpha, degree, j as int),
        forall|b: int| j < b <= k ==> !step_accepts(rax, rem, bdp, alpha, degree, b),
    ensures
        largest_beta_upto(rax, rem, bdp, alpha, degree, k) == j,
    decreases k,
{
    if k == 0 {
    } else if j == k {
    } else {
        assert(!step_accepts(rax, rem, bdp, alpha, degree, k as int));
        lemma_largest_beta_upto_is(rax, rem, bdp, alpha, degree, (k - 1) as nat, j);
    }
}

/// One extraction step. For a nonzero degree and arithmetic that fits, the
/// new root is the old one widened by the largest accepted digit, and the new
/// remainder is what is left of `bdp*rem + alpha` after that digit's power
/// delta is paid.
pub fn next(rax: u64, rem: u64, bdp: u64, alpha: u64, degree: u32) -> (r: Result<
    (u64, u64),
    RootError,
>)
    requires
        degree >= 1 ==> bdp as int <= pow(10, degree as nat),
    ensures
        degree == 0 ==> r == Result::<(u64, u64), RootError>::Err(RootError::InvalidDegree),
        degree >= 1 && step_overflows(rax as int, rem as int, bdp as int, alpha as int, degree as nat)
            ==> r == Result::<(u64, u64), RootError>::Err(RootError::Overflow),
        degree >= 1 && !step_overflows(
            rax as int,
            rem as int,
            bdp as int,
            alpha as int,
            degree as nat,
        ) ==> (r matches Ok(o) && {
            let beta = chosen_beta(rax as int, rem as int, bdp as int, alpha as int, degree as nat);
            &&& o.0 as int == 10 * rax as int + beta
            &&& o.1 as int == bdp as int * rem as int + alpha as int - step_delta(
                rax as int,
                bdp as int,
                degree as nat,
                beta as int,
            )
        }),
{
    if degree == 0 {
        return Err(RootError::InvalidDegree);
    }

    // By, the root widened by one decimal place.
    let widened = match rax.checked_mul(10) {
        Some(w) => w,
        None => {
            return Err(RootError::Overflow);
        },
    };
    if widened > u64::MAX - 9 {
        return Err(RootError::Overflow);
    }

    let rax_pow = match pow_u64(rax, degree) {
        Some(p) => p,
        None => {
            return Err(RootError::Overflow);
        },
    };

    // B^n * y^n, the subtrahend.
    let subtrahend = match bdp.checked_mul(rax_pow) {
        Some(s) => s,
        None => {
            proof {
                lemma_mul_nonnegative(bdp as int, rem as int);
            }
            return Err(RootError::Overflow);
        },
    };
    // B^n * r + alpha, the limit.
    let scaled_rem = match bdp.checked_mul(rem) {
        Some(s) => s,
        None => {
            proof {
                lemma_mul_nonnegative(bdp as int, rax_pow as int);
            }
            return Err(RootError::Overflow);
        },
    };
    let limit = match scaled_rem.checked_add(alpha) {
        Some(l) => l,
        None => {
            return Err(RootError::Overflow);
        },
    };
    if limit > u64::MAX - subtrahend {
        return Err(RootError::Overflow);
    }

    // Seek the largest digit beta with
    // (By + beta)^n - B^n*y^n <= B^n*r + alpha;
    // beta = 0 holds trivially with slack 0.
    let mut accepted = widened;
    let mut accepted_delta: u64 = 0;
    let mut beta: u64 = 1;
    while beta <= 9
        invariant
            degree >= 1,
            bdp as int <= pow(10, degree as nat),
            widened as int == 10 * rax as int,
            widened as int + 9 <= u64::MAX,
            subtrahend as int == bdp as int * pow(rax as int, degree as nat),
            limit as int == bdp as int * rem as int + alpha as int,
            subtrahend as int + limit as int <= u64::MAX,
            1 <= beta <= 10,
            accepted as int == widened as int + beta - 1,
            accepted_delta as int == step_delta(rax as int, bdp as int, degree as nat, beta - 1),
            step_accepts(rax as int, rem as int, bdp as int, alpha as int, degree as nat, beta - 1),
        ensures
            1 <= beta <= 10,
            accepted as int == widened as int + beta - 1,
            accepted_delta as int == step_delta(rax as int, bdp as int, degree as nat, beta - 1),
            step_accepts(rax as int, rem as int, bdp as int, alpha as int, degree as nat, beta - 1),
            beta <= 9 ==> !step_accepts(
                rax as int,
                rem as int,
                bdp as int,
                alpha as int,
                degree as nat,
                beta as int,
            ),
        decreases 10 - beta,
    {
        let cand = widened + beta;
        let cand_pow_opt = pow_u64(cand, degree);
        proof {
            // Every candidate's power covers the subtrahend.
            lemma_pow_base_increases(10 * rax as int, 10 * rax as int + beta, degree as nat);
            vstd::arithmetic::power::lemma_pow_distributes(10, rax as int, degree as nat);
            lemma_pow_nonnegative(rax as int, degree as nat);
            assert(bdp as int * pow(rax as int, degree as nat) <= pow(10, degree as nat) * pow(
                rax as int,
                degree as nat,
            )) by (nonlinear_arith)
                requires
                    0 <= bdp as int <= pow(10, degree as nat),
                    0 <= pow(rax as int, degree as nat),
            ;
        }
        let cand_pow = match cand_pow_opt {
            Some(p) => p,
            None => {
                break;
            },
        };
        let delta = cand_pow - subtrahend;
        if delta > limit {
            break;
        }
        accepted = cand;
        accepted_delta = delta;
        beta = beta + 1;
    }

    proof {
        if beta == 10 {
            lemma_largest_beta_upto_is(
                rax as int,
                rem as int,
                bdp as int,
                alpha as int,
                degree as nat,
                9,
                9,
            );
        } else {
            lemma_beta_done(
                rax as int,
                rem as int,
                bdp as int,
                alpha as int,
                degree as nat,
                (beta - 1) as nat,
            );
        }
    }
    Ok((accepted, limit - accepted_delta))

}

/// Once a digit is rejected, the digit before it is the chosen one.
proof fn lemma_beta_done(rax: int, rem: int, bdp: int, alpha: int, degree: nat, j: nat)
    requires
        degree >= 1,
        0 <= rax,
        0 <= rem,
        0 <= alpha,
        0 <= bdp <= pow(10, degree),
        j <= 8,
        j == 0 || step_accepts(rax, rem, bdp, alpha, degree, j as int),
        !step_accepts(rax, rem, bdp, alpha, degree, j as int + 1),
    ensures
        chosen_beta(rax, rem, bdp, alpha, degree) == j,
{
    assert forall|b: int| j < b <= 9 implies !step_accepts(rax, rem, bdp, alpha, degree, b) by {
        lemma_step_delta_monotone(rax, bdp, degree, j as int + 1, b);
    }
    lemma_largest_beta_upto_is(rax, rem, bdp, alpha, degree, 9, j);
}

} // verus!
