//! Single-precision numbers held by their bit pattern.
//!
//! A `Scalar` carries the 32 bits of an IEEE 754 binary32 number. The
//! functions here read those bits as integers only, and every statement about
//! them is made over `units`: the exact number that the pattern stands for,
//! counted in steps of 2^-149, the smallest positive binary32 number. Every
//! finite binary32 number is a whole number of such steps.

use vstd::prelude::*;
use vstd::arithmetic::power2::pow2;
use vstd::arithmetic::power2::lemma_pow2_pos;
use vstd::arithmetic::power2::lemma_pow2_unfold;
use vstd::arithmetic::power2::lemma_pow2_strictly_increases;
use vstd::arithmetic::power2::lemma2_to64;

verus! {

/// The bit that holds the sign.
pub const SIGN_BIT: u32 = 0x8000_0000;

/// The pattern of positive infinity: every larger magnitude is a NaN.
pub const INFINITY_BITS: u32 = 0x7F80_0000;

/// The number of patterns that share one exponent.
pub const FRACTION_SPAN: u32 = 0x0080_0000;

/// The pattern of the largest finite number.
pub const LARGEST_BITS: u32 = 0x7F7F_FFFF;

/// A binary32 number, as its 32 bits.
#[derive(Clone, Copy, PartialEq, Eq, Structural, Debug)]
pub struct Scalar {
    pub bits: u32,
}

/// The size, in steps of 2^-149, of the number whose bits without the sign
/// are `magnitude`. Infinity is given the size that the next exponent would
/// have, which is larger than every finite size.
pub open spec fn size_of(magnitude: int) -> int {
    let exponent = magnitude / 0x80_0000;
    let fraction = magnitude % 0x80_0000;
    if exponent == 0 {
        fraction
    } else {
        (0x80_0000 + fraction) * pow2((exponent - 1) as nat)
    }
}

impl Scalar {
    /// The bits without the sign.
    pub open spec fn magnitude(self) -> int {
        if self.bits >= SIGN_BIT {
            self.bits - SIGN_BIT
        } else {
            self.bits as int
        }
    }

    pub open spec fn is_negative(self) -> bool {
        self.bits >= SIGN_BIT
    }

    pub open spec fn is_nan(self) -> bool {
        self.magnitude() > INFINITY_BITS
    }

    pub open spec fn is_infinite(self) -> bool {
        self.magnitude() == INFINITY_BITS
    }

    pub open spec fn is_finite(self) -> bool {
        self.magnitude() < INFINITY_BITS
    }

    /// The number itself, in steps of 2^-149. Both zeros have 0 units.
    pub open spec fn units(self) -> int {
        if self.is_negative() {
            -size_of(self.magnitude())
        } else {
            size_of(self.magnitude())
        }
    }

    /// `self < other` as binary32 numbers: false as soon as one is a NaN.
    pub open spec fn precedes(self, other: Scalar) -> bool {
        !self.is_nan() && !other.is_nan() && self.units() < other.units()
    }

    /// `precedes`, read off the bits: among numbers that are not negative the
    /// smaller pattern is the smaller number, among negative ones the larger
    /// pattern, and a negative number precedes every other but zero against
    /// zero.
    pub open spec fn below(self, other: Scalar) -> bool {
        let a = self.magnitude();
        let b = other.magnitude();
        if a > INFINITY_BITS || b > INFINITY_BITS {
            false
        } else if self.is_negative() {
            if other.is_negative() {
                b < a
            } else {
                a != 0 || b != 0
            }
        } else {
            !other.is_negative() && a < b
        }
    }

    /// The bits of twice the number. A NaN stays as it is; what is too
    /// large to be doubled becomes the infinity of its sign.
    pub open spec fn doubled(self) -> Scalar {
        let magnitude = self.magnitude();
        let sign = self.bits - magnitude;
        if magnitude > INFINITY_BITS {
            self
        } else if magnitude < FRACTION_SPAN {
            Scalar { bits: (sign + 2 * magnitude) as u32 }
        } else if magnitude >= INFINITY_BITS - FRACTION_SPAN {
            Scalar { bits: (sign + INFINITY_BITS) as u32 }
        } else {
            Scalar { bits: (self.bits + FRACTION_SPAN) as u32 }
        }
    }

    pub fn from_bits(bits: u32) -> (r: Scalar)
        ensures
            r.bits == bits,
    {
        Scalar { bits }
    }

    pub fn to_bits(self) -> (r: u32)
        ensures
            r == self.bits,
    {
        self.bits
    }

    /// Whether `self < other` as binary32 numbers.
    pub fn lt(self, other: Scalar) -> (r: bool)
        ensures
            r == self.precedes(other),
            r == self.below(other),
    {
        let a_negative: bool = self.bits >= SIGN_BIT;
        let b_negative: bool = other.bits >= SIGN_BIT;
        let a: u32 = if a_negative { self.bits - SIGN_BIT } else { self.bits };
        let b: u32 = if b_negative { other.bits - SIGN_BIT } else { other.bits };
        proof {
            lemma_order_in_bits(self, other);
        }
        if a > INFINITY_BITS || b > INFINITY_BITS {
            return false;
        }
        if a_negative {
            if b_negative {
                b < a
            } else {
                a != 0 || b != 0
            }
        } else {
            if b_negative {
                false
            } else {
                a < b
            }
        }
    }

    /// Twice the number: exact wherever the double is still finite,
    /// the infinity of the same sign where it is not.
    pub fn twice(self) -> (r: Scalar)
        ensures
            r == self.doubled(),
            self.is_nan() ==> r.is_nan(),
            !self.is_nan() ==> !r.is_nan() && r.is_negative() == self.is_negative(),
            !self.is_nan() && 2 * size_of(self.magnitude()) <= size_of(LARGEST_BITS as int)
                ==> r.units() == 2 * self.units(),
            !self.is_nan() && 2 * size_of(self.magnitude()) > size_of(LARGEST_BITS as int)
                ==> r.is_infinite(),
    {
        proof {
            if !self.is_nan() {
                lemma_doubled_units(self);
            }
        }
        let negative: bool = self.bits >= SIGN_BIT;
        let magnitude: u32 = if negative { self.bits - SIGN_BIT } else { self.bits };
        let sign: u32 = if negative { SIGN_BIT } else { 0 };
        if magnitude > INFINITY_BITS {
            self
        } else if magnitude < FRACTION_SPAN {
            Scalar { bits: sign + 2 * magnitude }
        } else if magnitude >= INFINITY_BITS - FRACTION_SPAN {
            Scalar { bits: sign + INFINITY_BITS }
        } else {
            Scalar { bits: self.bits + FRACTION_SPAN }
        }
    }
}

/// The sizes that share an exponent lie between the least size of that
/// exponent and the least size of the next.
proof fn lemma_size_bounds(magnitude: int)
    requires
        0 <= magnitude <= 0x7FFF_FFFF,
    ensures
        magnitude / 0x80_0000 == 0 ==> 0 <= size_of(magnitude) < 0x80_0000,
        magnitude / 0x80_0000 > 0 ==> 0x80_0000 * pow2((magnitude / 0x80_0000 - 1) as nat)
            <= size_of(magnitude) < 0x80_0000 * pow2((magnitude / 0x80_0000) as nat),
{
    let exponent = magnitude / 0x80_0000;
    let fraction = magnitude % 0x80_0000;
    if exponent > 0 {
        let low = pow2((exponent - 1) as nat);
        lemma_pow2_pos((exponent - 1) as nat);
        lemma_pow2_unfold(exponent as nat);
        assert(pow2(exponent as nat) == 2 * low);
        assert(0x80_0000 * low <= (0x80_0000 + fraction) * low < 0x80_0000 * (2 * low))
            by (nonlinear_arith)
            requires
                0 <= fraction < 0x80_0000,
                low > 0,
        ;
    }
}

/// A larger pattern stands for a larger number.
pub proof fn lemma_size_increases(smaller: int, larger: int)
    requires
        0 <= smaller < larger <= 0x7FFF_FFFF,
    ensures
        0 <= size_of(smaller) < size_of(larger),
{
    let e1 = smaller / 0x80_0000;
    let e2 = larger / 0x80_0000;
    let f1 = smaller % 0x80_0000;
    let f2 = larger % 0x80_0000;
    lemma_size_bounds(smaller);
    lemma_size_bounds(larger);
    if e1 > 0 {
        lemma_pow2_pos((e1 - 1) as nat);
    }
    if e1 == e2 {
        if e1 > 0 {
            let low = pow2((e1 - 1) as nat);
            assert((0x80_0000 + f1) * low < (0x80_0000 + f2) * low) by (nonlinear_arith)
                requires
                    f1 < f2,
                    low > 0,
            ;
        }
    } else {
        let step = pow2((e2 - 1) as nat);
        lemma_pow2_pos((e2 - 1) as nat);
        if e1 == 0 {
            assert(0x80_0000 <= 0x80_0000 * step) by (nonlinear_arith)
                requires
                    step >= 1,
            ;
        } else {
            if e1 < e2 - 1 {
                lemma_pow2_strictly_increases(e1 as nat, (e2 - 1) as nat);
            }
            let upper = pow2(e1 as nat);
            assert(0x80_0000 * upper <= 0x80_0000 * step) by (nonlinear_arith)
                requires
                    upper <= step,
            ;
        }
    }
}

/// The order of the numbers can be read off their bits.
pub proof fn lemma_order_in_bits(a: Scalar, b: Scalar)
    ensures
        a.precedes(b) == a.below(b),
{
    if !a.is_nan() && !b.is_nan() {
        let m = a.magnitude();
        let n = b.magnitude();
        if m < n {
            lemma_size_increases(m, n);
        }
        if n < m {
            lemma_size_increases(n, m);
        }
        if 0 < m {
            lemma_size_increases(0, m);
        }
        if 0 < n {
            lemma_size_increases(0, n);
        }
    }
}

/// Doubling the pattern doubles the number, as long as the double is finite.
pub proof fn lemma_doubled_units(x: Scalar)
    requires
        !x.is_nan(),
    ensures
        !x.doubled().is_nan(),
        x.doubled().is_negative() == x.is_negative(),
        2 * size_of(x.magnitude()) <= size_of(LARGEST_BITS as int) <==> x.magnitude()
            < INFINITY_BITS - FRACTION_SPAN,
        x.magnitude() < INFINITY_BITS - FRACTION_SPAN ==> x.doubled().units() == 2 * x.units(),
        x.magnitude() >= INFINITY_BITS - FRACTION_SPAN ==> x.doubled().is_infinite(),
{
    let m = x.magnitude();
    let e = m / 0x80_0000;
    let f = m % 0x80_0000;
    lemma2_to64();
    let top = pow2(253);
    lemma_pow2_pos(253);
    lemma_pow2_unfold(254);
    lemma_pow2_unfold(253);
    assert(size_of(LARGEST_BITS as int) == 0xFF_FFFF * top);
    assert(size_of(0x7EFF_FFFF) == 0xFF_FFFF * pow2(252));
    if m < 0x80_0000 {
        if 2 * m >= 0x80_0000 {
            assert((2 * m) / 0x80_0000 == 1);
            assert(pow2((1 - 1) as nat) == 1);
        }
        assert(size_of(2 * m) == 2 * m);
        lemma_size_increases(m, 0x7EFF_FFFF);
    } else if m < 0x7F00_0000 {
        let low = pow2((e - 1) as nat);
        lemma_pow2_unfold(e as nat);
        assert((0x80_0000 + f) * (2 * low) == 2 * ((0x80_0000 + f) * low)) by (nonlinear_arith);
        assert(size_of(m + 0x80_0000) == 2 * size_of(m));
        if m < 0x7EFF_FFFF {
            lemma_size_increases(m, 0x7EFF_FFFF);
        }
    } else {
        assert(size_of(0x7F00_0000) == 0x80_0000 * top);
        if m > 0x7F00_0000 {
            lemma_size_increases(0x7F00_0000, m);
        }
    }
}

} // verus!
