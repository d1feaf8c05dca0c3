//! Scalars as IEEE-754 binary32 bit patterns.
//!
//! The library never does arithmetic on a scalar: it only carries scalars
//! around and puts them in order. A scalar is therefore held as the 32 bits
//! of its binary32 encoding, which the caller obtains from and turns back
//! into a machine number without loss. The order of two scalars is decided
//! on the bits alone and is proved to be the order of the numbers that the
//! bits encode.
use vstd::prelude::*;
use vstd::arithmetic::power2::pow2;
use vstd::arithmetic::power2::lemma_pow2_pos;
use vstd::arithmetic::power2::lemma_pow2_strictly_increases;
use vstd::arithmetic::power2::lemma_pow2_unfold;

verus! {

/// The sign bit of a binary32 pattern.
pub const SIGN_BIT: u32 = 0x8000_0000;

/// The number of values of the 23-bit fraction field.
pub const FRACTION_SPAN: u32 = 0x0080_0000;

/// The pattern of positive infinity: every greater magnitude is a NaN.
pub const INFINITY: u32 = 0x7f80_0000;

/// The pattern of the tolerance below which a difference counts as none:
/// the binary32 number nearest to 0.00001. Every comparison "up to rounding"
/// goes by this one constant.
pub const EPSILON: u32 = 0x3727_c5ac;

/// A number in binary32 encoding: one sign bit, eight exponent bits and
/// twenty-three fraction bits, most significant first.
#[derive(Clone, Copy, Debug, PartialEq, Eq, Structural)]
pub struct Scalar {
    pub bits: u32,
}

impl Scalar {
    /// Whether the sign bit is set.
    pub open spec fn negative(self) -> bool {
        self.bits >= SIGN_BIT
    }

    /// The pattern without its sign bit.
    pub open spec fn magnitude_bits(self) -> nat {
        if self.bits >= SIGN_BIT {
            (self.bits - SIGN_BIT) as nat
        } else {
            self.bits as nat
        }
    }

    /// The biased exponent field, from 0 to 255.
    pub open spec fn exponent(self) -> nat {
        self.magnitude_bits() / (FRACTION_SPAN as nat)
    }

    /// The fraction field, below 2^23.
    pub open spec fn fraction(self) -> nat {
        self.magnitude_bits() % (FRACTION_SPAN as nat)
    }

    /// Whether the pattern encodes no number at all.
    pub open spec fn nan(self) -> bool {
        self.magnitude_bits() > INFINITY
    }

    /// The absolute value of the encoded number, multiplied by 2^149 so that
    /// it is an integer: a subnormal pattern stands for `fraction * 2^-149`,
    /// a normal one for `(2^23 + fraction) * 2^(exponent - 150)`. Infinity
    /// comes out above every finite magnitude.
    pub open spec fn scaled_magnitude(self) -> nat {
        if self.exponent() == 0 {
            self.fraction()
        } else {
            (FRACTION_SPAN as nat + self.fraction()) * pow2((self.exponent() - 1) as nat)
        }
    }

    /// The encoded number multiplied by 2^149. Both zeros give 0.
    pub open spec fn scaled_value(self) -> int {
        if self.negative() {
            -(self.scaled_magnitude() as int)
        } else {
            self.scaled_magnitude() as int
        }
    }

    /// The position of the pattern on a line along which patterns stand in
    /// the order of their numbers: the magnitude bits, negated under a sign.
    pub open spec fn ordinal(self) -> int {
        if self.negative() {
            -(self.magnitude_bits() as int)
        } else {
            self.magnitude_bits() as int
        }
    }

    /// Whether `self` encodes a number greater than zero.
    pub open spec fn positive(self) -> bool {
        !self.nan() && self.scaled_value() > 0
    }

    /// Whether both patterns encode numbers and the first is the smaller.
    pub open spec fn less_than(self, other: Scalar) -> bool {
        !self.nan() && !other.nan() && self.scaled_value() < other.scaled_value()
    }

    /// Whether both patterns encode numbers and the first is not the greater.
    pub open spec fn at_most(self, other: Scalar) -> bool {
        !self.nan() && !other.nan() && self.scaled_value() <= other.scaled_value()
    }

    /// Whether `self` encodes a number less than zero.
    pub open spec fn below_zero(self) -> bool {
        !self.nan() && self.scaled_value() < 0
    }

    /// Whether `self` encodes zero or a number less than zero.
    pub open spec fn at_most_zero(self) -> bool {
        !self.nan() && self.scaled_value() <= 0
    }

    /// Whether `self` encodes a number whose absolute value is below the
    /// tolerance [`EPSILON`].
    pub open spec fn negligible(self) -> bool {
        !self.nan() && self.scaled_magnitude() < (Scalar { bits: EPSILON }).scaled_magnitude()
    }

    /// Wraps a bit pattern.
    pub fn from_bits(bits: u32) -> (s: Scalar)
        ensures
            s.bits == bits,
    {
        Scalar { bits }
    }

    /// The bit pattern.
    pub fn to_bits(self) -> (bits: u32)
        ensures
            bits == self.bits,
    {
        self.bits
    }

    /// Tells whether the pattern is a NaN.
    pub fn is_nan(self) -> (r: bool)
        ensures
            r == self.nan(),
    {
        let magnitude: u32 = if self.bits >= SIGN_BIT {
            self.bits - SIGN_BIT
        } else {
            self.bits
        };
        magnitude > INFINITY
    }

    /// Computes the ordinal.
    pub fn rank(self) -> (r: i64)
        ensures
            r == self.ordinal(),
    {
        if self.bits >= SIGN_BIT {
            let magnitude: u32 = self.bits - SIGN_BIT;
            0 - (magnitude as i64)
        } else {
            self.bits as i64
        }
    }

    /// Tells whether the scalar is a number greater than zero.
    pub fn is_positive(self) -> (r: bool)
        ensures
            r == self.positive(),
    {
        proof {
            lemma_zero_only_at_zero(self);
        }
        0 < self.bits && self.bits <= INFINITY
    }

    /// Tells whether the scalar is a number less than zero.
    pub fn is_below_zero(self) -> (r: bool)
        ensures
            r == self.below_zero(),
    {
        proof {
            lemma_zero_only_at_zero(self);
        }
        !self.is_nan() && self.bits > SIGN_BIT
    }

    /// Tells whether the scalar is zero or a number less than zero.
    pub fn is_at_most_zero(self) -> (r: bool)
        ensures
            r == self.at_most_zero(),
    {
        proof {
            lemma_zero_only_at_zero(self);
        }
        !self.is_nan() && (self.bits >= SIGN_BIT || self.bits == 0)
    }

    /// Tells whether the scalar, taken as the difference of two numbers,
    /// lets the two count as equal: whether its absolute value is below the
    /// tolerance.
    pub fn is_negligible(self) -> (r: bool)
        ensures
            r == self.negligible(),
    {
        let magnitude: u32 = if self.bits >= SIGN_BIT {
            self.bits - SIGN_BIT
        } else {
            self.bits
        };
        proof {
            let tolerance = Scalar { bits: EPSILON };
            if self.magnitude_bits() < tolerance.magnitude_bits() {
                lemma_magnitude_increases(self, tolerance);
            } else if tolerance.magnitude_bits() < self.magnitude_bits() {
                lemma_magnitude_increases(tolerance, self);
            }
        }
        magnitude < EPSILON
    }

    /// Tells whether both scalars are numbers and `self` is not the greater
    /// one.
    pub fn le(self, other: Scalar) -> (r: bool)
        ensures
            r == self.at_most(other),
    {
        proof {
            lemma_ordinal_orders_values(self, other);
        }
        !self.is_nan() && !other.is_nan() && self.rank() <= other.rank()
    }

    /// Tells whether both scalars are numbers and `self` is the smaller one.
    pub fn lt(self, other: Scalar) -> (r: bool)
        ensures
            r == self.less_than(other),
    {
        proof {
            lemma_ordinal_orders_values(self, other);
        }
        !self.is_nan() && !other.is_nan() && self.rank() < other.rank()
    }
}

/// A pattern with more magnitude bits encodes a greater magnitude.
proof fn lemma_magnitude_increases(a: Scalar, b: Scalar)
    requires
        a.magnitude_bits() < b.magnitude_bits(),
    ensures
        a.scaled_magnitude() < b.scaled_magnitude(),
{
    let span: nat = FRACTION_SPAN as nat;
    let (ea, fa) = (a.exponent(), a.fraction());
    let (eb, fb) = (b.exponent(), b.fraction());
    assert(a.magnitude_bits() == ea * span + fa && fa < span) by (nonlinear_arith)
        requires
            ea == a.magnitude_bits() / span,
            fa == a.magnitude_bits() % span,
            span > 0,
    ;
    assert(b.magnitude_bits() == eb * span + fb && fb < span) by (nonlinear_arith)
        requires
            eb == b.magnitude_bits() / span,
            fb == b.magnitude_bits() % span,
            span > 0,
    ;
    assert(ea <= eb) by (nonlinear_arith)
        requires
            ea * span + fa < eb * span + fb,
            fa < span,
            fb < span,
    ;
    if ea == eb {
        if ea > 0 {
            let p: nat = pow2((ea - 1) as nat);
            lemma_pow2_pos((ea - 1) as nat);
            assert((span + fa) * p < (span + fb) * p) by (nonlinear_arith)
                requires
                    fa < fb,
                    p > 0,
            ;
        }
    } else {
        let q: nat = pow2((eb - 1) as nat);
        lemma_pow2_pos((eb - 1) as nat);
        assert(span * q <= (span + fb) * q) by (nonlinear_arith);
        if ea == 0 {
            assert(span <= span * q) by (nonlinear_arith)
                requires
                    q > 0,
            ;
        } else {
            let p: nat = pow2((ea - 1) as nat);
            lemma_pow2_pos((ea - 1) as nat);
            lemma_pow2_unfold(ea);
            assert(pow2(ea) == 2 * p);
            if ea < eb - 1 {
                lemma_pow2_strictly_increases(ea, (eb - 1) as nat);
            }
            assert(pow2(ea) <= q);
            assert((span + fa) * p < span * q) by (nonlinear_arith)
                requires
                    fa < span,
                    2 * p <= q,
                    p > 0,
            ;
        }
    }
}

/// Only the two zero patterns encode zero.
proof fn lemma_zero_only_at_zero(a: Scalar)
    ensures
        a.scaled_magnitude() == 0 <==> a.magnitude_bits() == 0,
{
    let zero = Scalar { bits: 0 };
    assert(zero.scaled_magnitude() == 0);
    if a.magnitude_bits() > 0 {
        lemma_magnitude_increases(zero, a);
    }
}

/// The ordinals of two patterns compare as the numbers that the patterns
/// encode: the order that [`Scalar::rank`] yields on bits is the order of the
/// reals, and two patterns share an ordinal exactly when they encode the
/// same number (as the two zeros do).
pub proof fn lemma_ordinal_orders_values(a: Scalar, b: Scalar)
    ensures
        a.ordinal() < b.ordinal() <==> a.scaled_value() < b.scaled_value(),
        a.ordinal() == b.ordinal() <==> a.scaled_value() == b.scaled_value(),
{
    lemma_zero_only_at_zero(a);
    lemma_zero_only_at_zero(b);
    if a.magnitude_bits() < b.magnitude_bits() {
        lemma_magnitude_increases(a, b);
    } else if b.magnitude_bits() < a.magnitude_bits() {
        lemma_magnitude_increases(b, a);
    }
}

} // verus!
