//! Binary32 numbers, held as their bit patterns, and the doubles that equal them.
use vstd::prelude::*;
use vstd::arithmetic::power2::lemma_pow2_adds;
use vstd::arithmetic::power2::pow2;
use crate::double::Double;
use crate::double::QUIET_NAN;
use crate::double::SIGN;
use crate::double::lemma_round_zero;
use crate::double::not_a_number;
use crate::double::of_parts;
use crate::order::lemma_representable;
use crate::rounding::INFINITE;
use crate::rounding::lemma_encloses;
use crate::rounding::lemma_pow2_zero;
use crate::rounding::lemma_round_exact;
use crate::rounding::magnitude_units;
use crate::rounding::pack;
use crate::rounding::round_to_magnitude;

verus! {

/// 2^23: the step from one binade of binary32 numbers to the next.
pub const SINGLE_BINADE: u32 = 0x80_0000;

/// The sign bit of a binary32 number.
pub const SINGLE_SIGN: u32 = 0x8000_0000;

/// The exponent field of the infinities and the NaNs.
pub const SINGLE_SPECIAL: u32 = 0xff;

/// A binary32 number.
#[derive(Clone, Copy, Debug, PartialEq, Eq, Structural)]
pub struct Single {
    pub bits: u32,
}

impl Single {
    /// The sign bit is set.
    pub open spec fn negative(self) -> bool {
        self.bits >= SINGLE_SIGN
    }

    /// The exponent field.
    pub open spec fn exponent(self) -> nat {
        ((self.bits / SINGLE_BINADE) % 0x100) as nat
    }

    /// The fraction field.
    pub open spec fn fraction(self) -> nat {
        (self.bits % SINGLE_BINADE) as nat
    }

    pub open spec fn finite(self) -> bool {
        self.exponent() < SINGLE_SPECIAL
    }

    /// The significand, its hidden bit in place.
    pub open spec fn significand(self) -> nat {
        if self.exponent() == 0 {
            self.fraction()
        } else {
            self.fraction() + SINGLE_BINADE as nat
        }
    }

    /// What a finite number stands for without its sign, in units of 2^-149.
    pub open spec fn size_in_units(self) -> nat {
        let e = self.exponent();
        self.significand() * pow2(if e == 0 { 0 } else { (e - 1) as nat })
    }

    /// The double of the same value; for a NaN, the NaN of all operations.
    #[verifier::opaque]
    pub open spec fn double(self) -> Double {
        if self.finite() {
            of_parts(self.negative(), round_to_magnitude(self.size_in_units() * pow2(925), 1))
        } else if self.fraction() == 0 {
            of_parts(self.negative(), INFINITE as nat)
        } else {
            not_a_number()
        }
    }

    /// The double of the same value; for a NaN, the NaN of all operations.
    pub fn to_double(self) -> (r: Double)
        ensures
            r == self.double(),
    {
        proof {
            reveal(Single::double);
        }
        let negative = self.bits >= SINGLE_SIGN;
        let e: u32 = (self.bits / SINGLE_BINADE) % 0x100;
        let f: u32 = self.bits % SINGLE_BINADE;
        if e == SINGLE_SPECIAL && f != 0 {
            return Double { bits: QUIET_NAN };
        }
        let magnitude: u64 = if e == SINGLE_SPECIAL {
            INFINITE
        } else {
            let m: u32 = if e == 0 { f } else { f + SINGLE_BINADE };
            let k: u32 = if e == 0 { 0 } else { e - 1 };
            let ghost n = self.size_in_units();
            if m == 0 {
                proof {
                    lemma_round_zero(1);
                    assert(0 * pow2(k as nat) == 0 && 0 * pow2(925) == 0) by (nonlinear_arith);
                }
                0
            } else {
                proof {
                    lemma_pow2_zero();
                    assert(m * (1 * pow2(k as nat)) == n);
                    lemma_encloses(m as nat, false, n, 1, k as nat, 925, 0);
                    assert(1 * pow2(0) == 1);
                }
                pack(m as u128, k as i32 + 925, false, Ghost(n * pow2(925)), Ghost(1))
            }
        };
        Double { bits: if negative { magnitude + SIGN } else { magnitude } }
    }
}

/// Nothing is lost on the way from a finite binary32 number to a double.
pub proof fn law_widening_is_exact(a: Single)
    requires
        a.finite(),
    ensures
        a.double().finite(),
        a.double().negative() == a.negative(),
        a.double().units() == if a.negative() {
            -(a.size_in_units() * pow2(925))
        } else {
            (a.size_in_units() * pow2(925)) as int
        },
{
    reveal(Single::double);
    let e = a.exponent();
    let k: nat = if e == 0 { 0 } else { (e - 1) as nat };
    let m = a.significand();
    lemma_pow2_adds(k, 925);
    assert((m * pow2(k)) * pow2(925) == m * (pow2(k) * pow2(925))) by (nonlinear_arith);
    let b = lemma_representable(m, k + 925);
    lemma_round_exact(b, 1);
    assert(magnitude_units(b) * 1 == magnitude_units(b));
}

} // verus!
