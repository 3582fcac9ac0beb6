//! Integer n-th roots by decimal digit-by-digit extraction.
//!
//! `root(nth, rad)` returns the greatest `y` with `y^nth <= rad`, computed the
//! way the classical manual square-root algorithm does it, generalized to an
//! arbitrary root degree: a generator peels the radicand into blocks of `nth`
//! decimal digits, and a step solver finds one more root digit per block.

use vstd::prelude::*;

pub mod alpha_gen;
mod power;
pub mod step;

pub use alpha_gen::AlphaGenerator;

verus! {

use vstd::arithmetic::power::pow;
use vstd::arithmetic::power::lemma_pow_adds;
use vstd::arithmetic::power::lemma_pow_positive;
use vstd::arithmetic::power::lemma_pow_increases;
use vstd::arithmetic::power::lemma_pow_distributes;
use vstd::arithmetic::power::lemma_pow1;
use vstd::arithmetic::power::lemma0_pow;
use vstd::arithmetic::power::lemma1_pow;
use vstd::arithmetic::div_mod::lemma_fundamental_div_mod;
use vstd::arithmetic::mul::lemma_mul_nonnegative;
use crate::power::lemma_pow_base_increases;
use crate::power::lemma_pow_base_strictly_increases;
use crate::step::step_accepts;
use crate::step::chosen_beta;
use crate::step::step_overflows;
use crate::step::lemma_chosen_beta_props;

/// The one error taxonomy shared by every public entry point.
#[derive(Clone, Copy, Debug, PartialEq, Eq, Structural)]
pub enum RootError {
    /// A root degree (equivalently, a digit-block size) of zero: the zeroth
    /// root is undefined, so the request is rejected.
    InvalidDegree,
    /// Intermediate arithmetic would exceed the `u64` domain.
    Overflow,
}

/// The integer `nth`-root of `rad`: `None` exactly for the undefined zeroth
/// root, otherwise the greatest `y` with `y^nth <= rad` (so the exact root of
/// a perfect power, and the floor of the real root otherwise). The root of 0
/// is 0 for every valid degree.
pub fn root(nth: u8, rad: u32) -> (res: Option<u32>)
    ensures
        res is None <==> nth == 0,
        (res matches Some(y) ==> pow(y as int, nth as nat) <= rad as int && (rad as int) < pow(
            y as int + 1,
            nth as nat,
        )),
        nth >= 1 && rad == 0 ==> res == Some(0u32),
{
    if nth == 0 {
        return None;
    }

    // root/radix so far, and the running remainder.
    let mut rax: u64 = 0;
    let mut rem: u64 = 0;

    // The decimal base raised to the degree. For degrees so large that it
    // does not fit in u64 the radicand (at most 10 decimal digits) forms a
    // single block, and the only extraction step multiplies the constant by
    // zero; any placeholder works, so use 0.
    let bdp: u64 = match crate::power::pow_u64(10, nth as u32) {
        Some(b) => b,
        None => 0,
    };

    let mut agen = match AlphaGenerator::new(rad, nth as u32) {
        Ok(g) => g,
        Err(_) => {
            proof {
                assert(false);
            }
            return None;
        },
    };

    // Iteration cap: one step per digit block.
    let blocks: u32 = agen.plc / (nth as u32);
    proof {
        lemma_fundamental_div_mod(agen.plc as int, nth as int);
        assert(blocks as int * nth as int == nth as int * blocks as int) by (nonlinear_arith);
        lemma_pow_positive(10, ((blocks as int) * nth as int) as nat);
        lemma0_pow(nth as nat);
        lemma1_pow(nth as nat);
        lemma_pow_positive(10, nth as nat);
        if blocks >= 2 {
            // Two or more blocks force the scaling constant to be genuine:
            // the number then has more than nth digits, so 10^nth fits.
            assert(agen.num > 0);
            assert(agen.plc as int - nth as int >= nth as int) by (nonlinear_arith)
                requires
                    blocks as int >= 2,
                    nth as int >= 1,
                    agen.plc as int == blocks as int * nth as int,
            ;
            lemma_pow_increases(10, nth as nat, (agen.plc - nth as u32) as nat);
            assert(pow(10, nth as nat) <= rad as int);
        }
    }

    let ghost mut consumed: int = 0;
    let mut i: u32 = 0;
    while i < blocks
        invariant_except_break
            nth >= 1,
            i <= blocks,
            agen.wf(),
            agen.siz == nth as u32,
            agen.num > 0 ==> agen.plc as int == (blocks - i) * nth as int,
            (agen.num as int) < pow(10, ((blocks - i) * nth as int) as nat),
            rad as int == consumed * pow(10, ((blocks - i) * nth as int) as nat) + agen.num as int,
            0 <= consumed <= rad as int,
            pow(rax as int, nth as nat) <= consumed < pow(rax as int + 1, nth as nat),
            rem as int == consumed - pow(rax as int, nth as nat),
            rax as int <= consumed,
            i == 0 ==> rax == 0 && rem == 0 && consumed == 0,
            bdp == 0 || bdp as int == pow(10, nth as nat),
            bdp as int <= pow(10, nth as nat),
            blocks >= 2 ==> bdp as int == pow(10, nth as nat),
        ensures
            pow(rax as int, nth as nat) <= rad as int && (rad as int) < pow(
                rax as int + 1,
                nth as nat,
            ) || (i == blocks && rad as int == consumed * pow(
                10,
                ((blocks - i) * nth as int) as nat,
            ) + agen.num as int && (agen.num as int) < pow(10, ((blocks - i) * nth as int) as nat)
                && pow(rax as int, nth as nat) <= consumed < pow(rax as int + 1, nth as nat)),
        decreases blocks - i,
    {
        let ghost g0 = agen;
        let alpha = agen.next();

        // The prefix of the radicand consumed after this step.
        let ghost consumed_next: int = consumed * pow(10, nth as nat) + alpha as int;
        proof {
            lemma_pow_positive(10, nth as nat);
            lemma_pow_positive(10, ((blocks - i - 1) * nth as int) as nat);
            lemma_mul_nonnegative(consumed, pow(10, nth as nat));
            // One group's worth of places splits off the front.
            assert((blocks - i) * nth as int == nth as int + (blocks - i - 1) * nth as int)
                by (nonlinear_arith)
                requires
                    i < blocks,
            ;
            lemma_pow_adds(10, nth as nat, ((blocks - i - 1) * nth as int) as nat);
            let tailpow = pow(10, ((blocks - i - 1) * nth as int) as nat);
            if g0.num == 0 {
                assert(consumed * (pow(10, nth as nat) * tailpow) == (consumed * pow(
                    10,
                    nth as nat,
                )) * tailpow) by (nonlinear_arith);
                assert(rad as int == consumed_next * tailpow + agen.num as int);
            } else {
                assert(agen.plc as int == (blocks - i - 1) * nth as int);
                assert(consumed * (pow(10, nth as nat) * tailpow) + alpha as int * tailpow == (
                consumed * pow(10, nth as nat) + alpha as int) * tailpow) by (nonlinear_arith);
                assert(rad as int == consumed_next * tailpow + agen.num as int);
            }
            assert(consumed_next <= rad as int) by (nonlinear_arith)
                requires
                    rad as int == consumed_next * tailpow + agen.num as int,
                    consumed_next >= 0,
                    tailpow >= 1,
                    agen.num >= 0,
            ;
            // The step solver's arithmetic fits: its scaled total is exactly
            // the consumed prefix.
            if i == 0 {
                assert(bdp as int * pow(rax as int, nth as nat) + bdp as int * rem as int
                    + alpha as int == consumed_next);
            } else {
                assert(blocks >= 2);
                assert(bdp as int * pow(rax as int, nth as nat) + bdp as int * (consumed - pow(
                    rax as int,
                    nth as nat,
                )) + alpha as int == bdp as int * consumed + alpha as int) by (nonlinear_arith);
            }
            assert(!step_overflows(rax as int, rem as int, bdp as int, alpha as int, nth as nat));
        }

        let (orax, orem) = match step::next(rax, rem, bdp, alpha as u64, nth as u32) {
            Ok(p) => p,
            Err(_) => {
                proof {
                    assert(false);
                }
                return None;
            },
        };

        proof {
            let raxi = rax as int;
            let bdpi = bdp as int;
            let nthn = nth as nat;
            let lim = bdpi * rem as int + alpha as int;
            let subt = bdpi * pow(raxi, nthn);
            let cb = chosen_beta(raxi, rem as int, bdpi, alpha as int, nthn) as int;
            lemma_chosen_beta_props(raxi, rem as int, bdpi, alpha as int, nthn);
            lemma_mul_nonnegative(bdpi, rem as int);
            assert(subt + lim == consumed_next);

            // The new root's power reaches at most the consumed prefix.
            if cb == 0 {
                lemma_pow_distributes(10, raxi, nthn);
                if bdp == 0 {
                    assert(rax == 0);
                    lemma0_pow(nthn);
                }
                assert(pow(orax as int, nthn) <= consumed_next);
                assert(orem as int == consumed_next - pow(orax as int, nthn));
            } else {
                assert(step_accepts(raxi, rem as int, bdpi, alpha as int, nthn, cb));
                assert(pow(orax as int, nthn) <= consumed_next);
                assert(orem as int == consumed_next - pow(orax as int, nthn));
            }

            // One more digit would overshoot it.
            if cb < 9 {
                assert(!step_accepts(raxi, rem as int, bdpi, alpha as int, nthn, cb + 1));
                assert(consumed_next < pow(orax as int + 1, nthn));
            } else {
                assert(orax as int + 1 == 10 * (raxi + 1));
                lemma_pow_distributes(10, raxi + 1, nthn);
                assert(consumed * pow(10, nthn) + (alpha as int) < pow(raxi + 1, nthn) * pow(
                    10,
                    nthn,
                )) by (nonlinear_arith)
                    requires
                        (alpha as int) < pow(10, nthn),
                        consumed >= 0,
                        pow(10, nthn) >= 1,
                        consumed + 1 <= pow(raxi + 1, nthn),
                ;
                assert(consumed_next < pow(orax as int + 1, nthn));
            }
        }

        let orax_pow = match crate::power::pow_u64(orax, nth as u32) {
            Some(p) => p,
            None => {
                proof {
                    assert(false);
                }
                return None;
            },
        };

        if orax_pow > rad as u64 {
            // Unreachable under the loop's invariants: the candidate's power
            // never exceeds the consumed prefix, which never exceeds the
            // radicand.
            proof {
                assert(false);
            }
            break;
        }

        rax = orax;
        proof {
            consumed = consumed_next;
        }

        if orax_pow == rad as u64 {
            // Exact root found.
            proof {
                lemma_pow_base_strictly_increases(rax as int, rax as int + 1, nth as nat);
            }
            break;
        }

        rem = orem;
        proof {
            if orax as int >= 1 {
                lemma_pow1(orax as int);
                lemma_pow_increases(orax as nat, 1, nth as nat);
            }
        }
        i = i + 1;
    }

    proof {
        if !(pow(rax as int, nth as nat) <= rad as int && (rad as int) < pow(rax as int + 1, nth as nat)) {
            assert(pow(10, 0) == 1) by {
                vstd::arithmetic::power::lemma_pow0(10);
            }
            assert(agen.num == 0);
            assert(rad as int == consumed);
        }
        if rax as int >= 1 {
            lemma_pow1(rax as int);
            lemma_pow_increases(rax as nat, 1, nth as nat);
        }
        if rad == 0 && rax as int >= 1 {
            lemma_pow_positive(rax as int, nth as nat);
        }
    }
    Some(rax as u32)
}

/// Perfect powers round-trip exactly: a floor root of the radicand `y^degree`
/// can only be `y` itself, so `root(degree, y^degree) == y` whenever the
/// power is representable.
pub proof fn lemma_perfect_power_roundtrip(y: int, degree: nat, z: int)
    requires
        degree >= 1,
        0 <= y,
        0 <= z,
        pow(z, degree) <= pow(y, degree) < pow(z + 1, degree),
    ensures
        z == y,
{
    if y < z {
        lemma_pow_base_strictly_increases(y, z, degree);
    }
    if z < y {
        lemma_pow_base_increases(z + 1, y, degree);
    }
}

/// Monotonicity: for a fixed degree, floor roots respect the order of the
/// radicands, so `rad1 <= rad2` implies `root(degree, rad1) <= root(degree,
/// rad2)`.
pub proof fn lemma_root_monotonic(degree: nat, x1: int, x2: int, y1: int, y2: int)
    requires
        degree >= 1,
        0 <= x1 <= x2,
        0 <= y1,
        0 <= y2,
        pow(y1, degree) <= x1 < pow(y1 + 1, degree),
        pow(y2, degree) <= x2 < pow(y2 + 1, degree),
    ensures
        y1 <= y2,
{
    if y2 < y1 {
        lemma_pow_base_increases(y2 + 1, y1, degree);
    }
}

} // verus!
