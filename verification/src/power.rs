//! Exact integer exponentiation helpers and facts about `pow` that the
//! root-extraction proofs lean on.

use vstd::prelude::*;

verus! {

use vstd::arithmetic::power::pow;
use vstd::arithmetic::power::lemma_pow1;
use vstd::arithmetic::power::lemma_pow_positive;
use vstd::arithmetic::power::lemma_pow_increases;

/// Concrete values of the small powers of ten that the digit-count
/// arguments need.
pub(crate) proof fn lemma_pow10_values()
    ensures
        pow(10, 0) == 1,
        pow(10, 1) == 10,
        pow(10, 8) == 100_000_000,
        pow(10, 9) == 1_000_000_000,
        pow(10, 10) == 10_000_000_000,
{
    reveal_with_fuel(pow, 11);
}

/// `pow` keeps a non-negative base non-negative.
pub(crate) proof fn lemma_pow_nonnegative(b: int, e: nat)
    requires
        0 <= b,
    ensures
        0 <= pow(b, e),
    decreases e,
{
    reveal(pow);
    if e > 0 {
        lemma_pow_nonnegative(b, (e - 1) as nat);
        assert(pow(b, e) == b * pow(b, (e - 1) as nat));
        assert(0 <= b * pow(b, (e - 1) as nat)) by (nonlinear_arith)
            requires
                0 <= b,
                0 <= pow(b, (e - 1) as nat),
        ;
    }
}

/// `pow` is monotone in its base.
pub(crate) proof fn lemma_pow_base_increases(a: int, b: int, e: nat)
    requires
        0 <= a <= b,
    ensures
        pow(a, e) <= pow(b, e),
    decreases e,
{
    reveal(pow);
    if e > 0 {
        lemma_pow_base_increases(a, b, (e - 1) as nat);
        lemma_pow_nonnegative(a, (e - 1) as nat);
        lemma_pow_nonnegative(b, (e - 1) as nat);
        assert(pow(a, e) == a * pow(a, (e - 1) as nat));
        assert(pow(b, e) == b * pow(b, (e - 1) as nat));
        assert(a * pow(a, (e - 1) as nat) <= b * pow(b, (e - 1) as nat)) by (nonlinear_arith)
            requires
                0 <= a <= b,
                0 <= pow(a, (e - 1) as nat) <= pow(b, (e - 1) as nat),
        ;
    }
}

/// `pow` is strictly monotone in its base once the exponent is positive.
pub(crate) proof fn lemma_pow_base_strictly_increases(a: int, b: int, e: nat)
    requires
        0 <= a < b,
        1 <= e,
    ensures
        pow(a, e) < pow(b, e),
    decreases e,
{
    reveal(pow);
    if e == 1 {
        lemma_pow1(a);
        lemma_pow1(b);
    } else {
        lemma_pow_base_strictly_increases(a, b, (e - 1) as nat);
        lemma_pow_nonnegative(a, (e - 1) as nat);
        lemma_pow_positive(b, (e - 1) as nat);
        assert(pow(a, e) == a * pow(a, (e - 1) as nat));
        assert(pow(b, e) == b * pow(b, (e - 1) as nat));
        assert(a * pow(a, (e - 1) as nat) < b * pow(b, (e - 1) as nat)) by (nonlinear_arith)
            requires
                0 <= a < b,
                0 <= pow(a, (e - 1) as nat) < pow(b, (e - 1) as nat),
        ;
    }
}

/// Ten to the `e`-th, exactly, for exponents whose power still fits in `u32`.
#[verifier::loop_isolation(false)]
pub(crate) fn pow10_u32(e: u32) -> (r: u32)
    requires
        e <= 9,
    ensures
        r as int == pow(10, e as nat),
{
    proof {
        reveal(pow);
    }
    let mut i: u32 = 0;
    let mut r: u32 = 1;
    while i < e
        invariant
            i <= e,
            r as int == pow(10, i as nat),
        decreases e - i,
    {
        proof {
            reveal(pow);
            lemma_pow10_values();
            lemma_pow_increases(10, i as nat, 8);
            assert(pow(10, (i + 1) as nat) == 10 * pow(10, i as nat));
        }
        r = r * 10;
        i = i + 1;
    }
    r
}

/// `base` to the `e`-th power, or `None` exactly when the value does not fit
/// in `u64`.
#[verifier::loop_isolation(false)]
pub(crate) fn pow_u64(base: u64, e: u32) -> (r: Option<u64>)
    ensures
        (r matches Some(p) ==> p as int == pow(base as int, e as nat)),
        (r is None ==> pow(base as int, e as nat) > u64::MAX),
{
    proof {
        reveal(pow);
    }
    let mut i: u32 = 0;
    let mut acc: u64 = 1;
    while i < e
        invariant
            i <= e,
            acc as int == pow(base as int, i as nat),
        decreases e - i,
    {
        acc = match acc.checked_mul(base) {
            Some(v) => v,
            None => {
                proof {
                    reveal(pow);
                    assert(pow(base as int, (i + 1) as nat) == base as int * pow(
                        base as int,
                        i as nat,
                    ));
                    if base == 0 {
                        assert(acc as int * 0 == 0);
                    }
                    if base == 1 {
                        assert(acc as int * 1 == acc as int);
                    }
                    lemma_pow_increases(base as nat, (i + 1) as nat, e as nat);
                }
                return None;
            },
        };
        proof {
            reveal(pow);
            assert(pow(base as int, (i + 1) as nat) == base as int * pow(base as int, i as nat));
        }
        i = i + 1;
    }
    Some(acc)
}

} // verus!
