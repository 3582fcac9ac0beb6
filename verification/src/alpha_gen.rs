//! The digit-block ("alpha") generator: peels the decimal representation of a
//! number into consecutive groups of `siz` digits, most-significant group
//! first, and yields zero forever once the number is exhausted.

use vstd::prelude::*;

verus! {

use vstd::arithmetic::power::pow;
use vstd::arithmetic::power::lemma_pow_adds;
use vstd::arithmetic::power::lemma_pow_positive;
use vstd::arithmetic::power::lemma_pow_increases;
use vstd::arithmetic::div_mod::lemma_fundamental_div_mod;
use vstd::arithmetic::div_mod::lemma_mod_division_less_than_divisor;
use vstd::arithmetic::div_mod::lemma_mod_sub_multiples_vanish;
use vstd::arithmetic::div_mod::lemma_mod_multiples_basic;
use vstd::arithmetic::div_mod::lemma_mod_is_zero;
use vstd::arithmetic::div_mod::lemma_basic_div;
use crate::RootError;
use crate::power::pow10_u32;
use crate::power::lemma_pow10_values;

/// The digit groups still to be emitted from the state `(num, plc)`: the top
/// `siz`-digit group of `num` written with `plc` decimal places, then the
/// groups of the rest. Empty once fewer than `siz` places remain.
pub open spec fn gen_blocks(num: int, plc: nat, siz: nat) -> Seq<int>
    decreases plc,
{
    if siz == 0 || plc < siz {
        Seq::empty()
    } else {
        seq![num / pow(10, (plc - siz) as nat)] + gen_blocks(
            num % pow(10, (plc - siz) as nat),
            (plc - siz) as nat,
            siz,
        )
    }
}

/// Reads a group sequence back as one number, treating each group as a single
/// fixed-width base-`10^siz` digit, most-significant first.
pub open spec fn recompose(groups: Seq<int>, siz: nat) -> int
    decreases groups.len(),
{
    if groups.len() == 0 {
        0
    } else {
        groups[0] * pow(10, (siz * (groups.len() - 1)) as nat) + recompose(groups.drop_first(), siz)
    }
}

/// Peels `num` into groups of `siz` decimal digits, most-significant first.
/// After the last group it yields 0 on every further call.
#[derive(Clone, Copy, Debug, PartialEq, Eq, Structural)]
pub struct AlphaGenerator {
    /// The not-yet-emitted tail of the number.
    pub num: u32,
    /// How many decimal places the tail still spans (a multiple of `siz`).
    pub plc: u32,
    /// Digits per group: the root degree.
    pub siz: u32,
}

impl AlphaGenerator {
    /// Every state reachable through `new` and `next` satisfies this.
    pub open spec fn wf(self) -> bool {
        &&& self.siz >= 1
        &&& (self.num as int) < pow(10, self.plc as nat)
        &&& self.plc as int % self.siz as int == 0
        &&& self.plc <= self.siz + 9
        &&& (self.num > 0 ==> self.plc >= self.siz)
    }

    /// The groups this generator still has to emit.
    pub open spec fn remaining_blocks(self) -> Seq<int> {
        gen_blocks(self.num as int, self.plc as nat, self.siz as nat)
    }

    /// Builds a generator over `num` with groups of `siz` digits. The place
    /// count is the digit count of `num` rounded up to a multiple of `siz`,
    /// so the first group stands for the (possibly shorter) leading digits.
    /// A group size of zero is rejected: it would describe a zeroth root.
    pub fn new(num: u32, siz: u32) -> (r: Result<AlphaGenerator, RootError>)
        ensures
            r is Err <==> siz == 0,
            siz == 0 ==> r == Result::<AlphaGenerator, RootError>::Err(RootError::InvalidDegree),
            (r matches Ok(g) ==> {
                &&& g.num == num
                &&& g.siz == siz
                &&& g.wf()
                &&& (num == 0 ==> g.plc == 0)
                &&& (num > 0 ==> pow(10, (g.plc - siz) as nat) <= num as int)
            }),
    {
        if siz == 0 {
            return Err(RootError::InvalidDegree);
        }

        if num == 0 {
            let g = AlphaGenerator { num, siz, plc: 0 };
            proof {
                lemma_pow10_values();
                assert(0int % siz as int == 0) by (nonlinear_arith)
                    requires
                        siz as int >= 1,
                ;
            }
            return Ok(g);
        }

        // Count the decimal digits of num.
        proof {
            lemma_pow10_values();
        }
        let mut places: u32 = 0;
        let mut p: u64 = 1;
        #[verifier::loop_isolation(false)]
        while p <= num as u64
            invariant
                p >= 1,
                p as int == pow(10, places as nat),
                places <= 10,
                places > 0 ==> pow(10, (places - 1) as nat) <= num as int,
            decreases 10 - places,
        {
            proof {
                lemma_pow10_values();
                if places >= 10 {
                    lemma_pow_increases(10, 10, places as nat);
                    assert(false);
                }
                assert(pow(10, (places + 1) as nat) == 10 * pow(10, places as nat)) by {
                    reveal(pow);
                }
            }
            p = p * 10;
            places = places + 1;
        }
        proof {
            if places == 0 {
                assert(pow(10, 0) == 1) by {
                    lemma_pow10_values();
                }
                assert(false);
            }
        }

        let full_blocks = places / siz;
        proof {
            lemma_fundamental_div_mod(places as int, siz as int);
            lemma_mod_division_less_than_divisor(places as int, siz as int);
            assert(full_blocks as int * siz as int == siz as int * full_blocks as int)
                by (nonlinear_arith);
            assert(full_blocks as int * siz as int <= places as int);
        }
        let fbs_size = full_blocks * siz;
        let divisible = fbs_size == places;

        let plc = if divisible {
            fbs_size
        } else {
            proof {
                if siz > places {
                    lemma_basic_div(places as int, siz as int);
                    assert(fbs_size == 0);
                }
            }
            fbs_size + siz
        };

        let g = AlphaGenerator { num, siz, plc };
        proof {
            lemma_pow_increases(10, places as nat, plc as nat);
            lemma_mod_multiples_basic(full_blocks as int, siz as int);
            if !divisible {
                assert((full_blocks as int + 1) * siz as int == plc as int) by (nonlinear_arith)
                    requires
                        full_blocks as int * siz as int + siz as int == plc as int,
                ;
                lemma_mod_multiples_basic(full_blocks as int + 1, siz as int);
            }
            // At least one full group is available.
            if divisible {
                if full_blocks == 0 {
                    assert(fbs_size as int == 0 * siz as int);
                    assert(false);
                }
                assert(full_blocks as int * siz as int >= siz as int) by (nonlinear_arith)
                    requires
                        full_blocks as int >= 1,
                        siz as int >= 1,
                ;
            }
            assert(plc >= siz);
            // Minimality: the place count overshoots the digit count by less
            // than one full group.
            assert(plc as int - siz as int <= places as int - 1);
            lemma_pow_increases(10, (plc - siz) as nat, (places - 1) as nat);
        }
        Ok(g)
    }

    /// Emits the next group: the top `siz` digits of the remaining number,
    /// or 0 forever once the number is exhausted. The group recomposes with
    /// the new state as `old num == alpha * 10^new_plc + new num`.
    pub fn next(&mut self) -> (alpha: u32)
        requires
            old(self).wf(),
        ensures
            final(self).wf(),
            final(self).siz == old(self).siz,
            old(self).num == 0 ==> alpha == 0 && final(self).num == old(self).num
                && final(self).plc == old(self).plc,
            old(self).num > 0 ==> ({
                let p = pow(10, (old(self).plc - old(self).siz) as nat);
                &&& final(self).plc == old(self).plc - old(self).siz
                &&& alpha as int == old(self).num as int / p
                &&& final(self).num as int == old(self).num as int % p
                &&& old(self).num as int == alpha as int * pow(10, final(self).plc as nat)
                    + final(self).num as int
            }),
            (alpha as int) < pow(10, old(self).siz as nat),
            old(self).remaining_blocks() == if old(self).num == 0 {
                final(self).remaining_blocks()
            } else {
                seq![alpha as int] + final(self).remaining_blocks()
            },
    {
        let num = self.num;
        if num == 0 {
            proof {
                lemma_pow_positive(10, self.siz as nat);
            }
            return 0;
        }

        let e = self.plc - self.siz;
        let p = pow10_u32(e);
        proof {
            lemma_pow_positive(10, e as nat);
        }
        let alpha = num / p;
        self.num = num % p;
        self.plc = e;

        proof {
            let pi = p as int;
            let ni = num as int;
            lemma_fundamental_div_mod(ni, pi);
            lemma_mod_division_less_than_divisor(ni, pi);

            // The new state is well formed.
            lemma_mod_sub_multiples_vanish(old(self).plc as int, old(self).siz as int);
            if self.num > 0 {
                lemma_pow_positive(10, self.plc as nat);
                assert(pow(10, 0) == 1) by {
                    reveal(pow);
                }
                if self.plc == 0 {
                    assert(false);
                }
                lemma_mod_is_zero(self.plc as nat, self.siz as nat);
            }

            // The emitted group has at most siz digits.
            lemma_pow_adds(10, e as nat, old(self).siz as nat);
            let sizpow = pow(10, old(self).siz as nat);
            assert((alpha as int) < sizpow) by (nonlinear_arith)
                requires
                    pi > 0,
                    pi * alpha as int <= ni,
                    ni < pi * sizpow,
            ;

            // The emitted group is the head of the block sequence.
            assert(old(self).remaining_blocks() == seq![alpha as int]
                + final(self).remaining_blocks());
        }
        alpha
    }
}

/// How many groups the generator emits: one per `siz` places.
proof fn lemma_gen_blocks_len(num: int, plc: nat, siz: nat)
    requires
        siz >= 1,
    ensures
        gen_blocks(num, plc, siz).len() == plc as int / siz as int,
    decreases plc,
{
    if plc < siz {
        lemma_basic_div(plc as int, siz as int);
    } else {
        lemma_gen_blocks_len(num % pow(10, (plc - siz) as nat), (plc - siz) as nat, siz);
        assert(1 + (plc - siz) as int / siz as int == (siz + (plc - siz)) as int / siz as int) by {
            vstd::arithmetic::div_mod::lemma_div_plus_one((plc - siz) as int, siz as int);
        }
    }
}

/// Digit-block round trip: reading the emitted groups back, most-significant
/// first, each as one fixed-width base-`10^siz` digit, reconstructs the
/// source number exactly.
pub proof fn lemma_blocks_recompose(num: int, plc: nat, siz: nat)
    requires
        siz >= 1,
        plc as int % siz as int == 0,
        0 <= num < pow(10, plc),
    ensures
        recompose(gen_blocks(num, plc, siz), siz) == num,
    decreases plc,
{
    if plc == 0 {
        assert(pow(10, 0) == 1) by {
            reveal(pow);
        }
        assert(gen_blocks(num, plc, siz) =~= Seq::<int>::empty());
    } else {
        if plc < siz {
            lemma_mod_is_zero(plc, siz);
            assert(false);
        }
        let e = (plc - siz) as nat;
        let p = pow(10, e);
        let q = num / p;
        let rest = num % p;
        lemma_pow_positive(10, e);
        lemma_fundamental_div_mod(num, p);
        lemma_mod_division_less_than_divisor(num, p);
        lemma_mod_sub_multiples_vanish(plc as int, siz as int);
        lemma_blocks_recompose(rest, e, siz);

        let s = gen_blocks(num, plc, siz);
        let tail = gen_blocks(rest, e, siz);
        assert(s == seq![q] + tail);
        assert(s.drop_first() =~= tail);
        lemma_gen_blocks_len(num, plc, siz);
        lemma_gen_blocks_len(rest, e, siz);

        // The width of the head group's place: siz * (len - 1) == plc - siz.
        lemma_fundamental_div_mod(plc as int, siz as int);
        lemma_fundamental_div_mod(e as int, siz as int);
        assert(siz as int * (s.len() - 1) == e as int);
        assert(recompose(s, siz) == q * p + recompose(tail, siz));
    }
}

/// Round trip for a well-formed generator state: recomposing everything the
/// generator will emit yields exactly the number it still holds.
pub proof fn lemma_generator_roundtrip(g: AlphaGenerator)
    requires
        g.wf(),
    ensures
        recompose(g.remaining_blocks(), g.siz as nat) == g.num as int,
{
    lemma_blocks_recompose(g.num as int, g.plc as nat, g.siz as nat);
}

} // verus!
