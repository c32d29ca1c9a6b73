//! Small facts of integer arithmetic that the proofs lean on.
use vstd::prelude::*;

verus! {

/// The least of three integers.
pub open spec fn least(u: int, v: int, w: int) -> int {
    if u <= v && u <= w {
        u
    } else if v <= w {
        v
    } else {
        w
    }
}

/// The greatest of three integers.
pub open spec fn greatest(u: int, v: int, w: int) -> int {
    if u >= v && u >= w {
        u
    } else if v >= w {
        v
    } else {
        w
    }
}

/// A product of two differences, multiplied out.
pub proof fn lemma_expand(a: int, b: int, c: int, d: int)
    by (nonlinear_arith)
    ensures
        (a - b) * (c - d) == a * c - a * d - b * c + b * d,
{
}

/// Three factors can be taken in any order.
pub proof fn lemma_rotate(x: int, y: int, z: int)
    by (nonlinear_arith)
    ensures
        (x * y) * z == (z * y) * x,
        (x * y) * z == (x * z) * y,
{
}

/// Multiplication distributes over sums and differences.
pub proof fn lemma_distribute(x: int, y: int, z: int)
    by (nonlinear_arith)
    ensures
        (x - y) * z == x * z - y * z,
        (x + y) * z == x * z + y * z,
        z * (x - y) == z * x - z * y,
{
}

/// The sign of a product with a factor that is not negative.
pub proof fn lemma_sign(x: int, y: int)
    by (nonlinear_arith)
    ensures
        x >= 0 && y >= 0 ==> x * y >= 0,
        x <= 0 && y >= 0 ==> x * y <= 0,
{
}

/// A factor of known sign can be cancelled from an inequality.
pub proof fn lemma_cancel(s: int, d: int)
    by (nonlinear_arith)
    ensures
        s > 0 && s * d >= 0 ==> d >= 0,
        s < 0 && s * d <= 0 ==> d >= 0,
{
}

} // verus!
