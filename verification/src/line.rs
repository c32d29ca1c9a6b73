//! The digital line between two pixels.
//!
//! A line is drawn by walking its longer axis one pixel at a time; at each
//! step the pixel nearest to the ideal line is taken. [`on_line`] says which
//! pixels these are without reference to the walk.
use vstd::prelude::*;

verus! {

/// The distance between two coordinates.
pub open spec fn span(from: int, to: int) -> int {
    if from <= to {
        to - from
    } else {
        from - to
    }
}

/// How far `at` lies from `from` in the direction of `to`.
pub open spec fn steps(from: int, to: int, at: int) -> int {
    if from < to {
        at - from
    } else {
        from - at
    }
}

/// Twice the signed distance of `(px, py)` from the ideal line, in units
/// of one step along the line's longer axis.
pub open spec fn deviation(x1: int, y1: int, x2: int, y2: int, px: int, py: int) -> int {
    2 * (steps(y1, y2, py) * span(x1, x2) - steps(x1, x2, px) * span(y1, y2))
}

/// The number of steps along the longer axis that lead from the start of
/// the line to `(px, py)`.
pub open spec fn progress(x1: int, y1: int, x2: int, y2: int, px: int, py: int) -> int {
    if span(x1, x2) >= span(y1, y2) {
        steps(x1, x2, px)
    } else {
        steps(y1, y2, py)
    }
}

/// The length of the line in steps along its longer axis.
pub open spec fn length(x1: int, y1: int, x2: int, y2: int) -> int {
    if span(x1, x2) >= span(y1, y2) {
        span(x1, x2)
    } else {
        span(y1, y2)
    }
}

/// Whether a deviation `e` is that of the pixel nearest to the ideal line,
/// for a line that spans `a` pixels along x and `b` along y. Of two pixels
/// equally near, the one further along the shorter axis is taken. A line
/// of a single pixel leaves no choice.
pub open spec fn nearest(a: int, b: int, e: int) -> bool {
    if a >= b {
        a == 0 || -a < e <= a
    } else {
        -b <= e < b
    }
}

/// Whether `(px, py)` is a pixel of the digital line from `(x1, y1)` to
/// `(x2, y2)`: it lies in the box that the end points span, and no more
/// than half a pixel from the ideal line, measured across the longer axis.
pub open spec fn on_line(x1: int, y1: int, x2: int, y2: int, px: int, py: int) -> bool {
    &&& 0 <= steps(x1, x2, px) <= span(x1, x2)
    &&& 0 <= steps(y1, y2, py) <= span(y1, y2)
    &&& nearest(span(x1, x2), span(y1, y2), deviation(x1, y1, x2, y2, px, py))
}

/// The pixels of the line, as a mask.
pub open spec fn line_mask(x1: int, y1: int, x2: int, y2: int) -> spec_fn(int, int) -> bool {
    |px: int, py: int| on_line(x1, y1, x2, y2, px, py)
}

/// The pixels of the line that lie fewer than `t` steps from its start.
pub open spec fn line_prefix(x1: int, y1: int, x2: int, y2: int, t: int) -> spec_fn(
    int,
    int,
) -> bool {
    |px: int, py: int| on_line(x1, y1, x2, y2, px, py) && progress(x1, y1, x2, y2, px, py) < t
}

proof fn lemma_unit_multiple(d: int, a: int)
    by (nonlinear_arith)
    requires
        a > 0,
        -a < d * a < a,
    ensures
        d == 0,
{
}

proof fn lemma_bounded_by_factor(j: int, a: int, b: int, i: int)
    by (nonlinear_arith)
    requires
        a > 0,
        0 <= i <= a,
        0 <= b,
        2 * (j * a - i * b) <= a,
    ensures
        j <= b,
{
    assert(i * b <= a * b);
    assert(2 * (j * a) <= a + 2 * (a * b));
    assert((j - b) * a == j * a - a * b);
    assert(2 * ((j - b) * a) <= a);
    if j - b >= 1 {
        assert((j - b) * a >= a);
    }
}

proof fn lemma_meets_end(j: int, a: int, b: int)
    by (nonlinear_arith)
    requires
        a > 0,
        0 <= b,
        -a < 2 * (j * a - a * b) <= a,
    ensures
        j == b,
{
    assert((j - b) * a == j * a - a * b);
    if j - b >= 1 {
        assert((j - b) * a >= a);
    }
    if j - b <= -1 {
        assert((j - b) * a <= -a);
    }
}

proof fn lemma_meets_end_steep(i: int, a: int, b: int)
    by (nonlinear_arith)
    requires
        b > 0,
        0 <= a,
        -b <= 2 * (b * a - i * b) < b,
    ensures
        i == a,
{
    assert((a - i) * b == b * a - i * b);
    if a - i >= 1 {
        assert((a - i) * b >= b);
    }
    if a - i <= -1 {
        assert((a - i) * b <= -b);
    }
}

/// Both end points are pixels of the line: the first at no step, the last
/// at as many steps as the line is long.
pub proof fn lemma_line_ends(x1: int, y1: int, x2: int, y2: int)
    ensures
        on_line(x1, y1, x2, y2, x1, y1),
        progress(x1, y1, x2, y2, x1, y1) == 0,
        on_line(x1, y1, x2, y2, x2, y2),
        progress(x1, y1, x2, y2, x2, y2) == length(x1, y1, x2, y2),
{
    let a = span(x1, x2);
    let b = span(y1, y2);
    assert(0 * a - 0 * b == 0);
    assert(b * a - a * b == 0) by (nonlinear_arith);
}

/// Every pixel of the line lies between no step and the line's length.
pub proof fn lemma_line_progress(x1: int, y1: int, x2: int, y2: int, px: int, py: int)
    requires
        on_line(x1, y1, x2, y2, px, py),
    ensures
        0 <= progress(x1, y1, x2, y2, px, py) <= length(x1, y1, x2, y2),
{
}

/// The line has one pixel at each step: two of its pixels that lie equally
/// many steps from the start are the same pixel.
pub proof fn lemma_line_unique(
    x1: int,
    y1: int,
    x2: int,
    y2: int,
    px: int,
    py: int,
    qx: int,
    qy: int,
)
    requires
        on_line(x1, y1, x2, y2, px, py),
        on_line(x1, y1, x2, y2, qx, qy),
        progress(x1, y1, x2, y2, px, py) == progress(x1, y1, x2, y2, qx, qy),
    ensures
        px == qx,
        py == qy,
{
    let a = span(x1, x2);
    let b = span(y1, y2);
    let ip = steps(x1, x2, px);
    let iq = steps(x1, x2, qx);
    let jp = steps(y1, y2, py);
    let jq = steps(y1, y2, qy);
    if a >= b {
        if a > 0 {
            assert((jp - jq) * a == (jp * a - ip * b) - (jq * a - iq * b)) by (nonlinear_arith)
                requires
                    ip == iq,
            ;
            lemma_unit_multiple(jp - jq, a);
        }
    } else {
        assert((iq - ip) * b == (jp * a - ip * b) - (jq * a - iq * b)) by (nonlinear_arith)
            requires
                jp == jq,
        ;
        lemma_unit_multiple(iq - ip, b);
    }
}

/// The line has a pixel at each step from its start to its end. With
/// [`lemma_line_unique`], it has exactly one.
pub proof fn lemma_line_reaches(x1: int, y1: int, x2: int, y2: int, t: int)
    requires
        0 <= t <= length(x1, y1, x2, y2),
    ensures
        exists|px: int, py: int| #[trigger]
            on_line(x1, y1, x2, y2, px, py) && progress(x1, y1, x2, y2, px, py) == t,
{
    let a = span(x1, x2);
    let b = span(y1, y2);
    if a >= b {
        if a == 0 {
            assert(on_line(x1, y1, x2, y2, x1, y1));
        } else {
            let j = (2 * (t * b) + a) / (2 * a);
            let r = (2 * (t * b) + a) % (2 * a);
            assert(0 <= t * b) by (nonlinear_arith)
                requires
                    0 <= t,
                    0 <= b,
            ;
            vstd::arithmetic::div_mod::lemma_fundamental_div_mod(2 * (t * b) + a, 2 * a);
            vstd::arithmetic::div_mod::lemma_div_pos_is_pos(2 * (t * b) + a, 2 * a);
            assert((2 * a) * j == 2 * (j * a)) by (nonlinear_arith);
            assert(2 * (j * a - t * b) == a - r);
            lemma_bounded_by_factor(j, a, b, t);
            let px = if x1 < x2 {
                x1 + t
            } else {
                x1 - t
            };
            let py = if y1 < y2 {
                y1 + j
            } else {
                y1 - j
            };
            assert(on_line(x1, y1, x2, y2, px, py));
        }
    } else {
        let i = (2 * (t * a) + b) / (2 * b);
        let r = (2 * (t * a) + b) % (2 * b);
        assert(0 <= t * a) by (nonlinear_arith)
            requires
                0 <= t,
                0 <= a,
        ;
        vstd::arithmetic::div_mod::lemma_fundamental_div_mod(2 * (t * a) + b, 2 * b);
        vstd::arithmetic::div_mod::lemma_div_pos_is_pos(2 * (t * a) + b, 2 * b);
        assert((2 * b) * i == 2 * (i * b)) by (nonlinear_arith);
        assert(2 * (t * a - i * b) == r - b);
        assert(2 * (i * b - t * a) <= b);
        lemma_bounded_by_factor(i, b, a, t);
        let px = if x1 < x2 {
            x1 + i
        } else {
            x1 - i
        };
        let py = if y1 < y2 {
            y1 + t
        } else {
            y1 - t
        };
        assert(on_line(x1, y1, x2, y2, px, py));
    }
}

/// One step of the walk along a line, as the error term decides it.
///
/// At a pixel of the line that is not its end, `i` steps along x and `j`
/// along y from the start, with `e` half its deviation, the walk moves
/// along x if twice its error term `e + a - b` is at least `-b`, and along
/// y if it is at most `a`. The pixel that it reaches is again one of the
/// line, one step further along the longer axis.
pub proof fn lemma_line_step(a: int, b: int, i: int, j: int, e: int) -> (next: (int, int, int))
    requires
        0 <= a,
        0 <= b,
        0 <= i <= a,
        0 <= j <= b,
        !(i == a && j == b),
        e == j * a - i * b,
        nearest(a, b, 2 * e),
    ensures
        next.0 == if 2 * (e + a - b) >= -b {
            i + 1
        } else {
            i
        },
        next.1 == if 2 * (e + a - b) <= a {
            j + 1
        } else {
            j
        },
        next.2 == e + (if next.1 == j { 0 } else { a }) - (if next.0 == i { 0 } else { b }),
        next.2 == next.1 * a - next.0 * b,
        0 <= next.0 <= a,
        0 <= next.1 <= b,
        nearest(a, b, 2 * next.2),
        if a >= b {
            next.0 == i + 1
        } else {
            next.1 == j + 1
        },
{
    let ni = if 2 * (e + a - b) >= -b {
        i + 1
    } else {
        i
    };
    let nj = if 2 * (e + a - b) <= a {
        j + 1
    } else {
        j
    };
    let ne = nj * a - ni * b;
    assert(ne == e + (nj - j) * a - (ni - i) * b) by (nonlinear_arith)
        requires
            e == j * a - i * b,
            ne == nj * a - ni * b,
    ;
    assert((nj - j) * a == if nj == j { 0 } else { a }) by (nonlinear_arith)
        requires
            nj == j || nj == j + 1,
    ;
    assert((ni - i) * b == if ni == i { 0 } else { b }) by (nonlinear_arith)
        requires
            ni == i || ni == i + 1,
    ;
    if a >= b {
        if i == a {
            lemma_meets_end(j, a, b);
        }
        assert(ni == i + 1);
        lemma_bounded_by_factor(nj, a, b, ni);
    } else {
        if j == b {
            lemma_meets_end_steep(i, a, b);
        }
        assert(nj == j + 1);
        // The roles of the axes are exchanged: `i` is bounded by `a`
        // because the deviation, seen from the y axis, is at most `b`.
        assert(2 * (ni * b - nj * a) <= b);
        lemma_bounded_by_factor(ni, b, a, nj);
    }
    (ni, nj, ne)
}

} // verus!
