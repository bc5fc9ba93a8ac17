//! Floating-point quantities, carried as the bits of a double. The hub
//! compares them and hands them on; it never computes with them.

use vstd::arithmetic::power2::*;
use vstd::prelude::*;

verus! {

/// A double, as its IEEE 754 bits: the sign, 11 bits of exponent, 52 of
/// significand.
#[derive(Debug, Clone, Copy, PartialEq, Eq, Structural)]
pub struct Double {
    pub bits: u64,
}

/// The sign bit.
pub const SIGN: u64 = 0x8000_0000_0000_0000;

/// The bits of infinity. Larger ones, less the sign, are no number.
pub const INFINITE: u64 = 0x7ff0_0000_0000_0000;

/// One more than the largest significand.
pub const SIGNIFICAND: u64 = 0x0010_0000_0000_0000;

pub open spec fn is_negative(x: Double) -> bool {
    x.bits >= SIGN
}

/// The bits without the sign.
pub open spec fn unsigned_bits(x: Double) -> u64 {
    if is_negative(x) {
        (x.bits - SIGN) as u64
    } else {
        x.bits
    }
}

pub open spec fn is_nan(x: Double) -> bool {
    unsigned_bits(x) > INFINITE
}

/// What bits without a sign stand for, in units of 2^-1074, the smallest
/// number a double can hold.
pub open spec fn size(bits: u64) -> nat {
    let exponent: nat = (bits / SIGNIFICAND) as nat;
    let significand: nat = (bits % SIGNIFICAND) as nat;
    if exponent == 0 {
        significand
    } else {
        (SIGNIFICAND as nat + significand) * pow2((exponent - 1) as nat)
    }
}

/// `x <= limit`, for a limit that isn't negative.
pub open spec fn at_most(x: Double, limit: Double) -> bool {
    !is_nan(x) && (is_negative(x) || size(x.bits) <= size(limit.bits))
}

/// `x < limit`, for a limit above zero.
pub open spec fn below(x: Double, limit: Double) -> bool {
    !is_nan(x) && (is_negative(x) || size(x.bits) < size(limit.bits))
}

/// `x >= limit`, for a limit above zero.
pub open spec fn at_least(x: Double, limit: Double) -> bool {
    !is_nan(x) && !is_negative(x) && size(x.bits) >= size(limit.bits)
}

/// A double's place among all doubles, from the least to the greatest;
/// minus zero stands just before zero.
pub open spec fn rank(x: Double) -> int {
    if is_negative(x) {
        -(unsigned_bits(x) as int) - 1
    } else {
        x.bits as int
    }
}

/// Bits without a sign order as the numbers that they stand for.
pub proof fn bits_order_as_numbers(a: u64, b: u64)
    requires
        a < SIGN,
        b < SIGN,
    ensures
        a <= b <==> size(a) <= size(b),
        a < b <==> size(a) < size(b),
{
    if a < b {
        lemma_smaller(a, b);
    } else if b < a {
        lemma_smaller(b, a);
    }
}

proof fn lemma_smaller(a: u64, b: u64)
    requires
        a < b < SIGN,
    ensures
        size(a) < size(b),
{
    let ea: nat = (a / SIGNIFICAND) as nat;
    let eb: nat = (b / SIGNIFICAND) as nat;
    let sa: nat = (a % SIGNIFICAND) as nat;
    let sb: nat = (b % SIGNIFICAND) as nat;
    if ea == eb {
        assert(sa < sb);
        if ea > 0 {
            lemma_pow2_pos((ea - 1) as nat);
            let p: nat = pow2((ea - 1) as nat);
            assert((SIGNIFICAND as nat + sa) * p < (SIGNIFICAND as nat + sb) * p) by (nonlinear_arith)
                requires
                    sa < sb,
                    p > 0,
            ;
        }
    } else if ea == 0 {
        lemma_pow2_pos((eb - 1) as nat);
        let p: nat = pow2((eb - 1) as nat);
        assert(sa < (SIGNIFICAND as nat + sb) * p) by (nonlinear_arith)
            requires
                sa < SIGNIFICAND,
                p > 0,
        ;
    } else {
        let p: nat = pow2((ea - 1) as nat);
        let q: nat = pow2((eb - 1) as nat);
        lemma_pow2_pos((ea - 1) as nat);
        lemma_pow2_unfold(ea);
        if ea < eb - 1 {
            lemma_pow2_strictly_increases(ea, (eb - 1) as nat);
        }
        assert(2 * p <= q);
        assert((SIGNIFICAND as nat + sa) * p < (SIGNIFICAND as nat + sb) * q) by (nonlinear_arith)
            requires
                sa < SIGNIFICAND,
                p > 0,
                2 * p <= q,
        ;
    }
}

/// The three comparisons agree with each other, and no comparison holds of
/// what is no number. A negative number is below every limit.
pub proof fn comparisons_agree(x: Double, limit: Double)
    requires
        0 < limit.bits < 0x7ff0_0000_0000_0000,
    ensures
        is_nan(x) ==> !below(x, limit) && !at_most(x, limit) && !at_least(x, limit),
        !is_nan(x) ==> below(x, limit) != at_least(x, limit),
        at_most(x, limit) <==> below(x, limit) || x == limit,
        at_least(x, limit) ==> !is_negative(x),
        0x8000_0000_0000_0000 <= x.bits <= 0xfff0_0000_0000_0000 ==> below(x, limit),
        0x7ff0_0000_0000_0000 < x.bits < 0x8000_0000_0000_0000 ==> is_nan(x),
        0xfff0_0000_0000_0000 < x.bits ==> is_nan(x),
        x.bits <= 0x7ff0_0000_0000_0000 ==> !is_nan(x) && (below(x, limit) <==> x.bits
            < limit.bits),
{
    if x.bits < SIGN {
        bits_order_as_numbers(x.bits, limit.bits);
    }
}

/// Doubles stand in the order of the numbers that they are: below zero the
/// larger first, then zero and what is above it, the smaller first.
pub proof fn ranks_order_as_numbers(a: Double, b: Double)
    ensures
        !is_negative(a) && !is_negative(b) ==> (rank(a) < rank(b) <==> size(a.bits) < size(
            b.bits,
        )),
        is_negative(a) && is_negative(b) ==> (rank(a) < rank(b) <==> size(unsigned_bits(a)) > size(
            unsigned_bits(b),
        )),
        is_negative(a) && !is_negative(b) ==> rank(a) < rank(b),
        rank(a) == rank(b) ==> a == b,
{
    bits_order_as_numbers(unsigned_bits(a), unsigned_bits(b));
}

/// Of bits that stand for a whole number `n` of halves: a significand with
/// `n` in its highest bits, and the exponent that puts them there.
pub proof fn lemma_halves(bits: u64, significand: nat, exponent: nat, n: nat, shift: nat)
    requires
        bits / 0x0010_0000_0000_0000 == exponent,
        bits % 0x0010_0000_0000_0000 == significand,
        exponent > 0,
        0x0010_0000_0000_0000 + significand == n * pow2(shift),
        shift + exponent == 1074,
    ensures
        size(bits) == n * pow2(1073),
{
    lemma_pow2_adds(shift, (exponent - 1) as nat);
    let p = pow2(shift);
    let q = pow2((exponent - 1) as nat);
    assert((n * p) * q == n * (p * q)) by (nonlinear_arith);
}

impl Double {
    /// Whether this is at most `limit`, which isn't negative.
    pub fn at_most(self, limit: Double) -> (yes: bool)
        requires
            !is_negative(limit),
        ensures
            yes == at_most(self, limit),
    {
        if self.bits >= SIGN {
            self.bits - SIGN <= INFINITE
        } else {
            proof {
                bits_order_as_numbers(self.bits, limit.bits);
            }
            self.bits <= INFINITE && self.bits <= limit.bits
        }
    }

    /// Whether this is less than `limit`, which is above zero.
    pub fn below(self, limit: Double) -> (yes: bool)
        requires
            !is_negative(limit),
            limit.bits > 0,
        ensures
            yes == below(self, limit),
    {
        if self.bits >= SIGN {
            self.bits - SIGN <= INFINITE
        } else {
            proof {
                bits_order_as_numbers(self.bits, limit.bits);
            }
            self.bits <= INFINITE && self.bits < limit.bits
        }
    }

    /// Whether this is at least `limit`, which is above zero.
    pub fn at_least(self, limit: Double) -> (yes: bool)
        requires
            !is_negative(limit),
            limit.bits > 0,
        ensures
            yes == at_least(self, limit),
    {
        if self.bits >= SIGN {
            false
        } else {
            proof {
                bits_order_as_numbers(self.bits, limit.bits);
            }
            self.bits <= INFINITE && self.bits >= limit.bits
        }
    }

    /// Whether this stands before `other` among all doubles.
    pub fn precedes(self, other: Double) -> (yes: bool)
        ensures
            yes == (rank(self) < rank(other)),
    {
        if self.bits >= SIGN {
            other.bits < SIGN || self.bits > other.bits
        } else {
            other.bits < SIGN && self.bits < other.bits
        }
    }
}

} // verus!
