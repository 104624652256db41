//! Times in seconds. The clock and the files give them as floating-point
//! numbers; here they are carried and compared by their bits, and every
//! comparison is stated over the number that the bits stand for. Differences
//! of times and their texts come from outside, with the times.

use vstd::prelude::*;
use vstd::arithmetic::power2::{
    lemma2_to64, lemma_pow2_adds, lemma_pow2_pos, lemma_pow2_strictly_increases, pow2,
};

verus! {

/// A time in seconds: the bits of a binary64 floating-point number, that is a
/// sign, eleven bits of exponent and fifty-two bits of fraction.
#[derive(Clone, Copy, Debug, PartialEq, Eq, Structural)]
pub struct Secs {
    pub bits: u64,
}

/// The sign bit alone.
pub const SIGN: u64 = 0x8000_0000_0000_0000;

/// The lowest bit of the exponent alone.
pub const EXPONENT_ONE: u64 = 0x10_0000_0000_0000;

/// The bits of infinity.
pub const INFINITY: u64 = 0x7ff0_0000_0000_0000;

/// The bits without the sign.
pub open spec fn unsigned(t: Secs) -> nat {
    t.bits as nat % SIGN as nat
}

/// The bits stand for no number.
pub open spec fn is_nan(t: Secs) -> bool {
    unsigned(t) > INFINITY
}

/// The size of the number that unsigned bits stand for, counted in units of
/// `1 / 2^1075`, half the smallest number above zero. Infinity comes out
/// larger than every other number.
pub open spec fn units(unsigned: nat) -> nat {
    let exponent = unsigned / EXPONENT_ONE as nat;
    let fraction = unsigned % EXPONENT_ONE as nat;
    if exponent == 0 {
        2 * fraction
    } else {
        (EXPONENT_ONE as nat + fraction) * pow2(exponent)
    }
}

/// The number that the bits stand for, in the same units.
pub open spec fn signed_units(t: Secs) -> int {
    if t.bits >= SIGN {
        -units(unsigned(t))
    } else {
        units(unsigned(t)) as int
    }
}

/// Both stand for the same number.
pub open spec fn same_secs(a: Secs, b: Secs) -> bool {
    !is_nan(a) && !is_nan(b) && signed_units(a) == signed_units(b)
}

/// The time is longer than `secs` seconds.
pub open spec fn longer_than(t: Secs, secs: nat) -> bool {
    !is_nan(t) && signed_units(t) > secs * pow2(1075)
}

/// Larger bits stand for larger numbers.
pub proof fn lemma_units_increase(a: nat, b: nat)
    requires
        a < b,
    ensures
        units(a) < units(b),
{
    let one = EXPONENT_ONE as nat;
    let (ea, fa) = (a / one, a % one);
    let (eb, fb) = (b / one, b % one);
    lemma2_to64();
    lemma_pow2_pos(ea);
    lemma_pow2_pos(eb);
    assert(ea <= eb);
    if ea == eb {
        assert(fa < fb);
        if ea > 0 {
            assert((one + fa) * pow2(ea) < (one + fb) * pow2(ea)) by (nonlinear_arith)
                requires
                    fa < fb,
                    pow2(ea) > 0,
            ;
        }
    } else {
        assert(units(a) < (2 * one) * pow2(ea)) by {
            if ea > 0 {
                assert((one + fa) * pow2(ea) < (2 * one) * pow2(ea)) by (nonlinear_arith)
                    requires
                        fa < one,
                        pow2(ea) > 0,
                ;
            } else {
                assert((2 * one) * pow2(ea) == 2 * one) by (nonlinear_arith)
                    requires
                        pow2(ea) == 1,
                ;
            }
        }
        lemma_pow2_adds(ea, 1);
        assert((2 * one) * pow2(ea) == one * pow2(ea + 1)) by (nonlinear_arith)
            requires
                pow2(ea + 1) == pow2(ea) * 2,
        ;
        if ea + 1 < eb {
            lemma_pow2_strictly_increases(ea + 1, eb);
        }
        assert(one * pow2(ea + 1) <= (one + fb) * pow2(eb)) by (nonlinear_arith)
            requires
                pow2(ea + 1) <= pow2(eb),
                pow2(eb) > 0,
        ;
    }
}

impl Secs {
    /// Whether both are the same number.
    pub fn same(&self, other: Secs) -> (r: bool)
        ensures
            r == same_secs(*self, other),
    {
        let a: u64 = self.bits % SIGN;
        let b: u64 = other.bits % SIGN;
        proof {
            assert(units(0) == 0);
            if a > 0 {
                lemma_units_increase(0, a as nat);
            }
            if b > 0 {
                lemma_units_increase(0, b as nat);
            }
            if a < b {
                lemma_units_increase(a as nat, b as nat);
            }
            if b < a {
                lemma_units_increase(b as nat, a as nat);
            }
        }
        if a > INFINITY || b > INFINITY {
            return false;
        }
        a == b && (a == 0 || (self.bits >= SIGN) == (other.bits >= SIGN))
    }

    /// Whether the number is larger than `limit`, a positive one.
    pub fn exceeds(&self, limit: Secs) -> (r: bool)
        requires
            0 < limit.bits < INFINITY,
        ensures
            r == (!is_nan(*self) && signed_units(*self) > signed_units(limit)),
    {
        proof {
            let a = unsigned(*self);
            let b = limit.bits as nat;
            lemma_units_increase(0, b);
            if a < b {
                lemma_units_increase(a, b);
            }
            if b < a {
                lemma_units_increase(b, a);
            }
        }
        limit.bits < self.bits && self.bits <= INFINITY
    }
}

} // verus!
