//! Single-precision values carried as bit patterns.
//!
//! The verified core never computes with floating-point numbers. Where a
//! depth, a noise sample or an angle has to pass through it, the value travels
//! as its IEEE-754 binary32 pattern, and the few decisions taken on it are
//! comparisons, which this module states over an integer key.
use vstd::prelude::*;

verus! {

/// The sign bit of a binary32 pattern.
pub const SIGN_BIT: u32 = 0x8000_0000;

/// The pattern of positive infinity; every larger magnitude is a NaN.
pub const INFINITY_BITS: u32 = 0x7F80_0000;

/// The pattern of `1.0`.
pub const ONE_BITS: u32 = 0x3F80_0000;

/// A binary32 value, held as its bit pattern.
///
/// `==` on this type compares patterns. It therefore tells `-0.0` from `0.0`
/// and finds a NaN equal to itself; [`Scalar::lt_spec`] and its relatives
/// follow the numeric order instead.
#[derive(Clone, Copy, PartialEq, Eq, Structural, Debug)]
pub struct Scalar {
    pub bits: u32,
}

impl Scalar {
    /// The pattern without its sign bit.
    pub open spec fn magnitude(self) -> int {
        if self.bits >= SIGN_BIT {
            self.bits - SIGN_BIT
        } else {
            self.bits as int
        }
    }

    /// Whether the sign bit is set.
    pub open spec fn negative(self) -> bool {
        self.bits >= SIGN_BIT
    }

    /// Whether the pattern encodes a NaN.
    pub open spec fn is_nan_spec(self) -> bool {
        self.magnitude() > INFINITY_BITS
    }

    /// An integer that orders the non-NaN patterns as their values are
    /// ordered: the magnitude, negated under a sign bit. Both zeros have
    /// key 0.
    pub open spec fn key(self) -> int {
        if self.negative() {
            -self.magnitude()
        } else {
            self.magnitude()
        }
    }

    /// The numeric `<`: false as soon as either side is a NaN.
    pub open spec fn lt_spec(self, other: Scalar) -> bool {
        !self.is_nan_spec() && !other.is_nan_spec() && self.key() < other.key()
    }

    /// The numeric `>`.
    pub open spec fn gt_spec(self, other: Scalar) -> bool {
        other.lt_spec(self)
    }

    /// The pattern of the absolute value: the sign bit cleared.
    pub open spec fn abs_spec(self) -> Scalar {
        Scalar { bits: self.magnitude() as u32 }
    }

    /// The value brought into the range from `lo` to `hi`. A NaN is left
    /// as it is.
    pub open spec fn clamp_spec(self, lo: Scalar, hi: Scalar) -> Scalar {
        if self.lt_spec(lo) {
            lo
        } else if self.gt_spec(hi) {
            hi
        } else {
            self
        }
    }

    /// Positive infinity, the depth of an untouched pixel.
    pub open spec fn infinity_spec() -> Scalar {
        Scalar { bits: INFINITY_BITS }
    }

    /// Positive zero.
    pub open spec fn zero_spec() -> Scalar {
        Scalar { bits: 0 }
    }

    /// Wraps a bit pattern, as `f32::to_bits` gives it.
    pub fn from_bits(bits: u32) -> (s: Scalar)
        ensures
            s.bits == bits,
    {
        Scalar { bits }
    }

    /// The bit pattern, as `f32::from_bits` takes it.
    pub fn to_bits(self) -> (bits: u32)
        ensures
            bits == self.bits,
    {
        self.bits
    }

    #[verifier::when_used_as_spec(infinity_spec)]
    pub fn infinity() -> (s: Scalar)
        ensures
            s == Scalar::infinity_spec(),
    {
        Scalar { bits: INFINITY_BITS }
    }

    #[verifier::when_used_as_spec(zero_spec)]
    pub fn zero() -> (s: Scalar)
        ensures
            s == Scalar::zero_spec(),
    {
        Scalar { bits: 0 }
    }

    /// One.
    pub fn one() -> (s: Scalar)
        ensures
            s.bits == ONE_BITS,
    {
        Scalar { bits: ONE_BITS }
    }

    #[verifier::when_used_as_spec(is_nan_spec)]
    pub fn is_nan(self) -> (nan: bool)
        ensures
            nan == self.is_nan_spec(),
    {
        let magnitude: u32 = if self.bits >= SIGN_BIT {
            self.bits - SIGN_BIT
        } else {
            self.bits
        };
        magnitude > INFINITY_BITS
    }

    /// The order key as a machine integer.
    pub fn order_key(self) -> (k: i64)
        ensures
            k == self.key(),
    {
        if self.bits >= SIGN_BIT {
            -((self.bits - SIGN_BIT) as i64)
        } else {
            self.bits as i64
        }
    }

    /// `self < other` as the floating-point values compare.
    pub fn less_than(self, other: Scalar) -> (less: bool)
        ensures
            less == self.lt_spec(other),
    {
        !self.is_nan() && !other.is_nan() && self.order_key() < other.order_key()
    }

    /// `self > other` as the floating-point values compare.
    pub fn greater_than(self, other: Scalar) -> (greater: bool)
        ensures
            greater == self.gt_spec(other),
    {
        other.less_than(self)
    }

    /// Brings the value into the range from `lo` to `hi`: what lies below
    /// becomes `lo`, what lies above becomes `hi`, and a NaN stays a NaN.
    pub fn clamp(self, lo: Scalar, hi: Scalar) -> (c: Scalar)
        requires
            !lo.is_nan_spec(),
            !hi.is_nan_spec(),
            lo.key() <= hi.key(),
        ensures
            c == self.clamp_spec(lo, hi),
            self.is_nan_spec() ==> c == self,
            !self.is_nan_spec() ==> !c.is_nan_spec() && lo.key() <= c.key() <= hi.key(),
            !self.is_nan_spec() && lo.key() <= self.key() <= hi.key() ==> c == self,
    {
        if self.less_than(lo) {
            lo
        } else if self.greater_than(hi) {
            hi
        } else {
            self
        }
    }

    /// The absolute value; a NaN stays a NaN.
    pub fn abs(self) -> (a: Scalar)
        ensures
            a == self.abs_spec(),
            a.key() >= 0,
            a.is_nan_spec() == self.is_nan_spec(),
            !self.is_nan_spec() ==> a.key() == if self.key() < 0 { -self.key() } else { self.key() },
    {
        if self.bits >= SIGN_BIT {
            Scalar { bits: self.bits - SIGN_BIT }
        } else {
            self
        }
    }
}

/// A point or direction in space, each coordinate a binary32 pattern.
#[derive(Clone, Copy, PartialEq, Eq, Structural, Debug)]
pub struct Vector3 {
    pub x: Scalar,
    pub y: Scalar,
    pub z: Scalar,
}

impl Vector3 {
    pub fn new(x: Scalar, y: Scalar, z: Scalar) -> (v: Vector3)
        ensures
            v == (Vector3 { x, y, z }),
    {
        Vector3 { x, y, z }
    }

    /// The vector of three bit patterns.
    pub fn from_bits(x: u32, y: u32, z: u32) -> (v: Vector3)
        ensures
            v.x.bits == x,
            v.y.bits == y,
            v.z.bits == z,
    {
        Vector3 { x: Scalar { bits: x }, y: Scalar { bits: y }, z: Scalar { bits: z } }
    }
}

/// The numeric order on non-NaN values is a strict total order up to the
/// sign of zero: of two such values, exactly one of `a < b`, `b < a` and
/// "same key" holds.
pub proof fn lemma_order_trichotomy(a: Scalar, b: Scalar)
    requires
        !a.is_nan_spec(),
        !b.is_nan_spec(),
    ensures
        a.lt_spec(b) <==> !(b.lt_spec(a) || a.key() == b.key()),
        !(b.lt_spec(a) && a.key() == b.key()),
{
}

/// The numeric `<` is transitive.
pub proof fn lemma_order_transitive(a: Scalar, b: Scalar, c: Scalar)
    requires
        a.lt_spec(b),
        b.lt_spec(c),
    ensures
        a.lt_spec(c),
{
}

/// Nothing is nearer than a NaN and a NaN is nearer than nothing, and
/// nothing lies beyond positive infinity.
pub proof fn lemma_order_extremes(a: Scalar)
    ensures
        !a.lt_spec(a),
        !Scalar::infinity_spec().lt_spec(a),
        a.is_nan_spec() ==> forall|b: Scalar| !a.lt_spec(b) && !b.lt_spec(a),
{
}

} // verus!
