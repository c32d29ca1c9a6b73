//! Interpolation of colours under the weights of a sample.
use vstd::prelude::*;

use crate::arith::{greatest, least, lemma_distribute, lemma_sign};
use crate::color::Color;
use crate::raster::{Sample, WEIGHT_LIMIT};

verus! {

impl Sample {
    /// The magnitude of the first weight.
    pub open spec fn share0(self) -> int {
        if self.w0 < 0 {
            -self.w0
        } else {
            self.w0 as int
        }
    }

    /// The magnitude of the second weight.
    pub open spec fn share1(self) -> int {
        if self.w1 < 0 {
            -self.w1
        } else {
            self.w1 as int
        }
    }

    /// The magnitude of the third weight.
    pub open spec fn share2(self) -> int {
        if self.w2 < 0 {
            -self.w2
        } else {
            self.w2 as int
        }
    }

    /// Whether the weights can serve as those of a mean: they are of one
    /// sign, not all zero, and within [`WEIGHT_LIMIT`].
    pub open spec fn balanced(self) -> bool {
        &&& -WEIGHT_LIMIT <= self.w0 <= WEIGHT_LIMIT
        &&& -WEIGHT_LIMIT <= self.w1 <= WEIGHT_LIMIT
        &&& -WEIGHT_LIMIT <= self.w2 <= WEIGHT_LIMIT
        &&& {
            ||| self.w0 >= 0 && self.w1 >= 0 && self.w2 >= 0 && self.w0 + self.w1 + self.w2 > 0
            ||| self.w0 <= 0 && self.w1 <= 0 && self.w2 <= 0 && self.w0 + self.w1 + self.w2 < 0
        }
    }

    /// The mean of three values under the weights of the sample, rounded to
    /// the nearest integer, a half upwards.
    pub open spec fn mean(self, v0: int, v1: int, v2: int) -> int {
        let total = self.share0() + self.share1() + self.share2();
        let sum = self.share0() * v0 + self.share1() * v1 + self.share2() * v2;
        (2 * sum + total) / (2 * total)
    }

    pub fn is_balanced(&self) -> (ok: bool)
        ensures
            ok == self.balanced(),
    {
        let limit: i128 = WEIGHT_LIMIT;
        -limit <= self.w0 && self.w0 <= limit && -limit <= self.w1 && self.w1 <= limit && -limit
            <= self.w2 && self.w2 <= limit && ((self.w0 >= 0 && self.w1 >= 0 && self.w2 >= 0
            && self.w0 + self.w1 + self.w2 > 0) || (self.w0 <= 0 && self.w1 <= 0 && self.w2 <= 0
            && self.w0 + self.w1 + self.w2 < 0))
    }

    /// Interpolates one colour channel: the mean of its values at the
    /// three vertices under the weights of the sample, rounded to the
    /// nearest. It lies between the least and the greatest of the three.
    pub fn blend_channel(&self, v0: u8, v1: u8, v2: u8) -> (v: u8)
        requires
            self.balanced(),
        ensures
            v == self.mean(v0 as int, v1 as int, v2 as int),
            least(v0 as int, v1 as int, v2 as int) <= v <= greatest(v0 as int, v1 as int, v2 as int),
    {
        let m0: u128 = magnitude(self.w0);
        let m1: u128 = magnitude(self.w1);
        let m2: u128 = magnitude(self.w2);
        let total: u128 = m0 + m1 + m2;
        proof {
            lemma_share_bounds(m0 as int, v0 as int);
            lemma_share_bounds(m1 as int, v1 as int);
            lemma_share_bounds(m2 as int, v2 as int);
        }
        let sum: u128 = m0 * (v0 as u128) + m1 * (v1 as u128) + m2 * (v2 as u128);
        proof {
            lemma_mean_between(
                m0 as int,
                m1 as int,
                m2 as int,
                v0 as int,
                v1 as int,
                v2 as int,
                least(v0 as int, v1 as int, v2 as int),
                greatest(v0 as int, v1 as int, v2 as int),
            );
        }
        let mean: u128 = (2 * sum + total) / (2 * total);
        mean as u8
    }

    /// Interpolates a colour, channel by channel.
    pub fn blend_color(&self, c0: Color, c1: Color, c2: Color) -> (c: Color)
        requires
            self.balanced(),
        ensures
            c.r == self.mean(c0.r as int, c1.r as int, c2.r as int),
            c.g == self.mean(c0.g as int, c1.g as int, c2.g as int),
            c.b == self.mean(c0.b as int, c1.b as int, c2.b as int),
            c0 == c1 && c1 == c2 ==> c == c0,
    {
        Color {
            r: self.blend_channel(c0.r, c1.r, c2.r),
            g: self.blend_channel(c0.g, c1.g, c2.g),
            b: self.blend_channel(c0.b, c1.b, c2.b),
        }
    }
}

fn magnitude(w: i128) -> (m: u128)
    requires
        -WEIGHT_LIMIT <= w <= WEIGHT_LIMIT,
    ensures
        m == if w < 0 { -w } else { w as int },
{
    if w < 0 {
        (-w) as u128
    } else {
        w as u128
    }
}

proof fn lemma_share_bounds(m: int, v: int)
    by (nonlinear_arith)
    requires
        0 <= m <= WEIGHT_LIMIT,
        0 <= v <= 255,
    ensures
        0 <= m * v <= 255 * WEIGHT_LIMIT,
{
}

/// A rounded mean under weights that are not negative lies between the
/// bounds of the values.
proof fn lemma_mean_between(m0: int, m1: int, m2: int, v0: int, v1: int, v2: int, lo: int, hi: int)
    requires
        m0 >= 0,
        m1 >= 0,
        m2 >= 0,
        m0 + m1 + m2 > 0,
        lo <= v0 <= hi,
        lo <= v1 <= hi,
        lo <= v2 <= hi,
    ensures
        lo <= (2 * (m0 * v0 + m1 * v1 + m2 * v2) + (m0 + m1 + m2)) / (2 * (m0 + m1 + m2)) <= hi,
{
    let total = m0 + m1 + m2;
    let sum = m0 * v0 + m1 * v1 + m2 * v2;
    lemma_distribute(v0, lo, m0);
    lemma_distribute(v1, lo, m1);
    lemma_distribute(v2, lo, m2);
    lemma_sign(m0, v0 - lo);
    lemma_sign(m1, v1 - lo);
    lemma_sign(m2, v2 - lo);
    lemma_distribute(hi, v0, m0);
    lemma_distribute(hi, v1, m1);
    lemma_distribute(hi, v2, m2);
    lemma_sign(m0, hi - v0);
    lemma_sign(m1, hi - v1);
    lemma_sign(m2, hi - v2);
    lemma_distribute(m0 + m1, m2, lo);
    lemma_distribute(m0, m1, lo);
    lemma_distribute(m0 + m1, m2, hi);
    lemma_distribute(m0, m1, hi);
    assert(m0 * lo == lo * m0 && m1 * lo == lo * m1 && m2 * lo == lo * m2) by (nonlinear_arith);
    assert(m0 * hi == hi * m0 && m1 * hi == hi * m1 && m2 * hi == hi * m2) by (nonlinear_arith);
    assert(m0 * v0 == v0 * m0 && m1 * v1 == v1 * m1 && m2 * v2 == v2 * m2) by (nonlinear_arith);
    assert(total * lo <= sum <= total * hi);
    let q = (2 * sum + total) / (2 * total);
    let r = (2 * sum + total) % (2 * total);
    vstd::arithmetic::div_mod::lemma_fundamental_div_mod(2 * sum + total, 2 * total);
    assert(2 * sum + total == (2 * total) * q + r);
    assert(lo <= q <= hi) by (nonlinear_arith)
        requires
            total > 0,
            total * lo <= sum <= total * hi,
            2 * sum + total == (2 * total) * q + r,
            0 <= r < 2 * total,
    {
        if q >= hi + 1 {
            assert((2 * total) * q >= (2 * total) * (hi + 1));
            assert((2 * total) * (hi + 1) == 2 * (total * hi) + 2 * total);
        }
        if q <= lo - 1 {
            assert((2 * total) * q <= (2 * total) * (lo - 1));
            assert((2 * total) * (lo - 1) == 2 * (total * lo) - 2 * total);
        }
    }
}

} // verus!
