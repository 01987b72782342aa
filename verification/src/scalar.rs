//! Real coordinates as the library holds them.
//!
//! A coordinate is a binary64 number, kept as the signed integer that orders
//! it: the bit pattern with the magnitude of negative numbers mirrored, so
//! that a larger key is a number that stands later in the total order of the
//! format. Comparisons, minima and maxima are exact on keys; arithmetic is
//! left to the caller.

use vstd::prelude::*;
use std::cmp::Ordering;

verus! {

/// Bit that carries the sign in a binary64 pattern.
pub const SIGN_BIT: u64 = 0x8000_0000_0000_0000u64;

/// Key of positive infinity; larger keys are positive NaNs.
pub const INFINITY_KEY: i64 = 0x7FF0_0000_0000_0000i64;

/// Key of negative infinity; smaller keys are negative NaNs.
pub const NEG_INFINITY_KEY: i64 = -0x7FF0_0000_0000_0001i64;

/// Key of one.
pub const ONE_KEY: i64 = 0x3FF0_0000_0000_0000i64;

/// A binary64 number held by its order key.
#[derive(Clone, Copy, Debug, PartialEq, Eq, Structural)]
pub struct Scalar {
    pub key: i64,
}

/// Key of the number with the given bit pattern: the pattern itself when the
/// sign bit is clear, else minus one minus the magnitude.
pub open spec fn key_of_bits(bits: u64) -> int {
    if bits < SIGN_BIT {
        bits as int
    } else {
        SIGN_BIT - 1 - bits
    }
}

/// Bit pattern of the number with the given key.
pub open spec fn bits_of_key(key: int) -> int {
    if key >= 0 {
        key
    } else {
        SIGN_BIT - 1 - key
    }
}

impl Scalar {
    /// The number is a NaN.
    pub open spec fn nan(self) -> bool {
        self.key > INFINITY_KEY || self.key < NEG_INFINITY_KEY
    }

    /// Position of the number on the real line, both zeros sharing one place.
    pub open spec fn rank(self) -> int {
        if self.key < 0 {
            self.key + 1
        } else {
            self.key as int
        }
    }

    /// `self < other` as numbers: false when either is a NaN.
    pub open spec fn less(self, other: Scalar) -> bool {
        !self.nan() && !other.nan() && self.rank() < other.rank()
    }

    /// `self <= other` as numbers: false when either is a NaN.
    pub open spec fn at_most(self, other: Scalar) -> bool {
        !self.nan() && !other.nan() && self.rank() <= other.rank()
    }

    /// The smaller of two numbers; a NaN gives way to the other operand, and
    /// of two equal numbers the first is kept.
    pub open spec fn lower(self, other: Scalar) -> Scalar {
        if self.nan() {
            other
        } else if other.less(self) {
            other
        } else {
            self
        }
    }

    /// The larger of two numbers; a NaN gives way to the other operand, and
    /// of two equal numbers the first is kept.
    pub open spec fn upper(self, other: Scalar) -> Scalar {
        if self.nan() {
            other
        } else if self.less(other) {
            other
        } else {
            self
        }
    }

    /// The number without its sign.
    pub open spec fn magnitude(self) -> Scalar {
        if self.key < 0 {
            Scalar { key: (-1 - self.key) as i64 }
        } else {
            self
        }
    }

    /// The number with its sign changed.
    pub open spec fn negated(self) -> Scalar {
        Scalar { key: (-1 - self.key) as i64 }
    }

    /// The number held between two bounds: the lower bound when it is less,
    /// the upper bound when it is greater, else itself; a NaN stays a NaN.
    pub open spec fn held(self, min: Scalar, max: Scalar) -> Scalar {
        if self.less(min) {
            min
        } else if max.less(self) {
            max
        } else {
            self
        }
    }

    /// Positive zero.
    pub fn zero() -> (s: Scalar)
        ensures
            s.key == 0,
    {
        Scalar { key: 0 }
    }

    /// Positive infinity.
    pub fn infinity() -> (s: Scalar)
        ensures
            s.key == INFINITY_KEY,
    {
        Scalar { key: INFINITY_KEY }
    }

    /// The number with the given bit pattern.
    pub fn from_bits(bits: u64) -> (s: Scalar)
        ensures
            s.key == key_of_bits(bits),
    {
        if bits < SIGN_BIT {
            Scalar { key: bits as i64 }
        } else {
            let magnitude: u64 = bits - SIGN_BIT;
            Scalar { key: -1 - (magnitude as i64) }
        }
    }

    /// The bit pattern of the number.
    pub fn to_bits(self) -> (bits: u64)
        ensures
            bits == bits_of_key(self.key as int),
            key_of_bits(bits) == self.key,
    {
        if self.key >= 0 {
            self.key as u64
        } else {
            let magnitude: u64 = (-1 - self.key) as u64;
            magnitude + SIGN_BIT
        }
    }

    /// Tells whether the number is a NaN.
    pub fn is_nan(self) -> (r: bool)
        ensures
            r == self.nan(),
    {
        self.key > INFINITY_KEY || self.key < NEG_INFINITY_KEY
    }

    fn place(self) -> (r: i64)
        requires
            !self.nan(),
        ensures
            r == self.rank(),
    {
        if self.key < 0 {
            self.key + 1
        } else {
            self.key
        }
    }

    /// Numeric `<`.
    pub fn lt(self, other: Scalar) -> (r: bool)
        ensures
            r == self.less(other),
    {
        !self.is_nan() && !other.is_nan() && self.place() < other.place()
    }

    /// Numeric `<=`.
    pub fn le(self, other: Scalar) -> (r: bool)
        ensures
            r == self.at_most(other),
    {
        !self.is_nan() && !other.is_nan() && self.place() <= other.place()
    }

    /// Numeric `>`.
    pub fn gt(self, other: Scalar) -> (r: bool)
        ensures
            r == other.less(self),
    {
        other.lt(self)
    }

    /// Numeric `>=`.
    pub fn ge(self, other: Scalar) -> (r: bool)
        ensures
            r == other.at_most(self),
    {
        other.le(self)
    }

    /// Minimum that ignores a NaN operand.
    pub fn min(self, other: Scalar) -> (r: Scalar)
        ensures
            r == self.lower(other),
    {
        if self.is_nan() {
            other
        } else if other.lt(self) {
            other
        } else {
            self
        }
    }

    /// Maximum that ignores a NaN operand.
    pub fn max(self, other: Scalar) -> (r: Scalar)
        ensures
            r == self.upper(other),
    {
        if self.is_nan() {
            other
        } else if self.lt(other) {
            other
        } else {
            self
        }
    }

    /// Negation: the sign bit is changed.
    pub fn neg(self) -> (r: Scalar)
        ensures
            r == self.negated(),
            r.negated() == self,
            r.nan() == self.nan(),
            !self.nan() ==> r.rank() == -self.rank(),
    {
        Scalar { key: -1 - self.key }
    }

    /// Absolute value: the sign bit is cleared.
    pub fn abs(self) -> (r: Scalar)
        ensures
            r == self.magnitude(),
            r.key >= 0,
            r.nan() == self.nan(),
    {
        if self.key < 0 {
            Scalar { key: -1 - self.key }
        } else {
            self
        }
    }

    /// Restricts the number to the bounds, which must be numbers in order.
    pub fn clamp(self, min: Scalar, max: Scalar) -> (r: Scalar)
        requires
            min.at_most(max),
        ensures
            r == self.held(min, max),
            !self.nan() ==> min.at_most(r) && r.at_most(max),
    {
        if self.lt(min) {
            min
        } else if self.gt(max) {
            max
        } else {
            self
        }
    }

    /// Position of `self` relative to `other` in the total order of the
    /// format, in which negative zero precedes positive zero and the NaNs
    /// stand at both ends.
    pub fn total_cmp(self, other: Scalar) -> (o: Ordering)
        ensures
            o == Ordering::Less <==> self.key < other.key,
            o == Ordering::Equal <==> self.key == other.key,
            o == Ordering::Greater <==> self.key > other.key,
    {
        if self.key < other.key {
            Ordering::Less
        } else if self.key > other.key {
            Ordering::Greater
        } else {
            Ordering::Equal
        }
    }
}

/// Every bit pattern has its own key, and the pattern is found again from it.
pub proof fn lemma_bits_round_trip(bits: u64)
    ensures
        i64::MIN <= key_of_bits(bits) <= i64::MAX,
        bits_of_key(key_of_bits(bits)) == bits,
{
}

/// Every key is the key of one bit pattern.
pub proof fn lemma_key_round_trip(key: i64)
    ensures
        0 <= bits_of_key(key as int) <= u64::MAX,
        key_of_bits(bits_of_key(key as int) as u64) == key,
{
}

/// On numbers the total order refines the numeric one: a number that is less
/// has the smaller key, and two numbers with keys in order are in order.
pub proof fn lemma_total_order_refines(a: Scalar, b: Scalar)
    requires
        !a.nan(),
        !b.nan(),
    ensures
        a.less(b) ==> a.key < b.key,
        a.key <= b.key ==> a.at_most(b),
        a.at_most(b) && b.at_most(a) ==> a.rank() == b.rank(),
        a.at_most(b) || b.at_most(a),
{
}

} // verus!
