//! Straight lines on the integer grid: the points of a line in closed form,
//! and the arithmetic of the stepping that visits them one by one.

use crate::raster::Point;
use vstd::arithmetic::div_mod::{lemma_fundamental_div_mod, lemma_fundamental_div_mod_converse};
use vstd::prelude::*;

verus! {

/// The distance between two coordinates.
pub open spec fn span(from: int, to: int) -> int {
    if from <= to {
        to - from
    } else {
        from - to
    }
}

/// The coordinate `by` units away from `from` in the direction of `to`.
pub open spec fn toward(from: int, to: int, by: int) -> int {
    if from < to {
        from + by
    } else {
        from - by
    }
}

/// The number of steps from one end of a line to the other: the larger of
/// its two spans. The line has one point more than it has steps.
pub open spec fn line_steps(x0: int, y0: int, x1: int, y1: int) -> int {
    if span(x0, x1) >= span(y0, y1) {
        span(x0, x1)
    } else {
        span(y0, y1)
    }
}

/// `k * m / n` rounded to the nearest integer, a half rounded up.
pub open spec fn scaled(k: int, m: int, n: int) -> int {
    if n > 0 {
        (2 * (k * m) + n) / (2 * n)
    } else {
        0
    }
}

/// Point number `k` of the line from `(x0, y0)` to `(x1, y1)`: after `k` of
/// the line's `n` steps each coordinate has covered `k / n` of its span,
/// rounded to the grid.
pub open spec fn line_point(x0: int, y0: int, x1: int, y1: int, k: int) -> Point {
    let n = line_steps(x0, y0, x1, y1);
    (
        toward(x0, x1, scaled(k, span(x0, x1), n)),
        toward(y0, y1, scaled(k, span(y0, y1), n)),
    )
}

/// Whether `p` is one of the points of the line from `(x0, y0)` to
/// `(x1, y1)`.
pub open spec fn on_line(x0: int, y0: int, x1: int, y1: int, p: Point) -> bool {
    exists|k: int|
        0 <= k <= line_steps(x0, y0, x1, y1) && p == #[trigger] line_point(x0, y0, x1, y1, k)
}

/// `scaled(k, m, n)` is the one integer `q` with
/// `2nq <= 2km + n < 2n(q + 1)`.
pub proof fn lemma_scaled_bounds(k: int, m: int, n: int)
    requires
        n > 0,
    ensures
        2 * (n * scaled(k, m, n)) <= 2 * (k * m) + n < 2 * (n * scaled(k, m, n)) + 2 * n,
{
    let t = 2 * (k * m) + n;
    let q = scaled(k, m, n);
    lemma_fundamental_div_mod(t, 2 * n);
    assert((2 * n) * q == 2 * (n * q)) by (nonlinear_arith);
}

/// The converse of `lemma_scaled_bounds`.
pub proof fn lemma_scaled_is(k: int, m: int, n: int, q: int)
    requires
        n > 0,
        2 * (n * q) <= 2 * (k * m) + n < 2 * (n * q) + 2 * n,
    ensures
        scaled(k, m, n) == q,
{
    let t = 2 * (k * m) + n;
    assert(q * (2 * n) == 2 * (n * q)) by (nonlinear_arith);
    lemma_fundamental_div_mod_converse(t, 2 * n, q, t - 2 * (n * q));
}

/// A coordinate whose span is the whole number of steps moves at every step.
pub proof fn lemma_scaled_major(k: int, n: int)
    requires
        n > 0,
    ensures
        scaled(k, n, n) == k,
{
    assert(n * k == k * n) by (nonlinear_arith);
    lemma_scaled_is(k, n, n, k);
}

/// From one point of a line to the next a coordinate stays or moves by one,
/// and it never moves back.
pub proof fn lemma_scaled_next(k: int, m: int, n: int)
    requires
        n > 0,
        0 <= m <= n,
    ensures
        scaled(k, m, n) <= scaled(k + 1, m, n) <= scaled(k, m, n) + 1,
{
    let q = scaled(k, m, n);
    let r = scaled(k + 1, m, n);
    lemma_scaled_bounds(k, m, n);
    lemma_scaled_bounds(k + 1, m, n);
    assert((k + 1) * m == k * m + m) by (nonlinear_arith);
    // 2nq <= 2km + n < 2nq + 2n and 2nr <= 2km + 2m + n < 2nr + 2n
    assert(q <= r <= q + 1) by (nonlinear_arith)
        requires
            n > 0,
            0 <= m <= n,
            2 * (n * q) <= 2 * (k * m) + n < 2 * (n * q) + 2 * n,
            2 * (n * r) <= 2 * (k * m) + 2 * m + n < 2 * (n * r) + 2 * n,
    ;
}

/// A coordinate is at its start before the first step and at its end after
/// the last.
pub proof fn lemma_scaled_ends(m: int, n: int)
    requires
        n > 0,
        0 <= m <= n,
    ensures
        scaled(0, m, n) == 0,
        scaled(n, m, n) == m,
{
    assert(0 * m == 0) by (nonlinear_arith);
    assert(n * 0 == 0) by (nonlinear_arith);
    lemma_scaled_is(0, m, n, 0);
    assert(n * m == m * n) by (nonlinear_arith);
    lemma_scaled_is(n, m, n, m);
}

/// A coordinate never leaves its span.
pub proof fn lemma_scaled_range(k: int, m: int, n: int)
    requires
        n > 0,
        0 <= m <= n,
        0 <= k <= n,
    ensures
        0 <= scaled(k, m, n) <= m,
{
    let q = scaled(k, m, n);
    lemma_scaled_bounds(k, m, n);
    assert(0 <= k * m <= n * m) by (nonlinear_arith)
        requires
            0 <= k <= n,
            0 <= m,
    ;
    assert(0 <= q <= m) by (nonlinear_arith)
        requires
            n > 0,
            0 <= k * m <= n * m,
            2 * (n * q) <= 2 * (k * m) + n < 2 * (n * q) + 2 * n,
    ;
}

/// The error term that the stepping carries after `k` steps of a line whose
/// spans are `a` and `b`.
pub open spec fn walk_error(a: int, b: int, k: int) -> int {
    let n = if a >= b {
        a
    } else {
        b
    };
    a * (1 + scaled(k, b, n)) - b * (1 + scaled(k, a, n))
}

/// One step of the walk along a line with spans `a` and `b`, taken after
/// `k` steps: comparing twice the error term with the two spans tells which
/// coordinates move to reach point `k + 1`, and adding the spans of the
/// coordinates that moved gives the next error term.
pub proof fn lemma_walk_step(a: int, b: int, k: int)
    requires
        0 <= a,
        0 <= b,
        0 <= k < (if a >= b {
            a
        } else {
            b
        }),
    ensures
        ({
            let n = if a >= b {
                a
            } else {
                b
            };
            let err = walk_error(a, b, k);
            let across: int = if 2 * err >= -b {
                1
            } else {
                0
            };
            let down: int = if 2 * err <= a {
                1
            } else {
                0
            };
            &&& scaled(k + 1, a, n) == scaled(k, a, n) + across
            &&& scaled(k + 1, b, n) == scaled(k, b, n) + down
            &&& walk_error(a, b, k + 1) == err - b * across + a * down
            &&& across + down >= 1
            &&& -3 * n <= 2 * err <= 3 * n
        }),
{
    let n = if a >= b {
        a
    } else {
        b
    };
    let i = scaled(k, a, n);
    let j = scaled(k, b, n);
    let err = walk_error(a, b, k);
    lemma_scaled_bounds(k, a, n);
    lemma_scaled_bounds(k, b, n);
    if a >= b {
        lemma_scaled_major(k, n);
        lemma_scaled_major(k + 1, n);
        let p = n * j;
        let q = k * b;
        assert(a * (1 + j) == a + p) by (nonlinear_arith)
            requires
                p == a * j,
        ;
        assert(b * (1 + k) == b + q) by (nonlinear_arith)
            requires
                q == k * b,
        ;
        assert((k + 1) * b == q + b) by (nonlinear_arith)
            requires
                q == k * b,
        ;
        assert(n * (j + 1) == p + n) by (nonlinear_arith)
            requires
                p == n * j,
        ;
        if 2 * err <= a {
            lemma_scaled_is(k + 1, b, n, j + 1);
            assert(a * (1 + (j + 1)) == a + p + a) by (nonlinear_arith)
                requires
                    p == a * j,
            ;
        } else {
            lemma_scaled_is(k + 1, b, n, j);
        }
        assert(b * (1 + (k + 1)) == b + q + b) by (nonlinear_arith)
            requires
                q == k * b,
        ;
    } else {
        lemma_scaled_major(k, n);
        lemma_scaled_major(k + 1, n);
        let p = n * i;
        let q = k * a;
        assert(b * (1 + i) == b + p) by (nonlinear_arith)
            requires
                p == b * i,
        ;
        assert(a * (1 + k) == a + q) by (nonlinear_arith)
            requires
                q == k * a,
        ;
        assert((k + 1) * a == q + a) by (nonlinear_arith)
            requires
                q == k * a,
        ;
        assert(n * (i + 1) == p + n) by (nonlinear_arith)
            requires
                p == n * i,
        ;
        if 2 * err >= -b {
            lemma_scaled_is(k + 1, a, n, i + 1);
            assert(b * (1 + (i + 1)) == b + p + b) by (nonlinear_arith)
                requires
                    p == b * i,
            ;
        } else {
            lemma_scaled_is(k + 1, a, n, i);
        }
        assert(a * (1 + (k + 1)) == a + q + a) by (nonlinear_arith)
            requires
                q == k * a,
        ;
    }
}

/// A line starts at its first end and, after all its steps, stands at its
/// other end.
pub proof fn lemma_line_ends(x0: int, y0: int, x1: int, y1: int)
    ensures
        line_point(x0, y0, x1, y1, 0) == (x0, y0),
        line_point(x0, y0, x1, y1, line_steps(x0, y0, x1, y1)) == (x1, y1),
{
    let n = line_steps(x0, y0, x1, y1);
    if n > 0 {
        lemma_scaled_ends(span(x0, x1), n);
        lemma_scaled_ends(span(y0, y1), n);
    }
}

/// Before its last step a line has not reached its other end.
pub proof fn lemma_line_not_done(x0: int, y0: int, x1: int, y1: int, k: int)
    requires
        0 <= k < line_steps(x0, y0, x1, y1),
    ensures
        line_point(x0, y0, x1, y1, k) != (x1, y1),
{
    let n = line_steps(x0, y0, x1, y1);
    lemma_scaled_major(k, n);
}

/// Every point of a line lies between its two ends, coordinate by
/// coordinate.
pub proof fn lemma_line_within(x0: int, y0: int, x1: int, y1: int, k: int)
    requires
        0 <= k <= line_steps(x0, y0, x1, y1),
    ensures
        ({
            let at = line_point(x0, y0, x1, y1, k);
            &&& (x0 <= at.0 <= x1 || x1 <= at.0 <= x0)
            &&& (y0 <= at.1 <= y1 || y1 <= at.1 <= y0)
        }),
{
    let n = line_steps(x0, y0, x1, y1);
    if n > 0 {
        lemma_scaled_range(k, span(x0, x1), n);
        lemma_scaled_range(k, span(y0, y1), n);
    }
}

/// Two consecutive points of a line are neighbours on the grid: they differ,
/// and by at most one in each coordinate. The line therefore has no gaps.
pub proof fn lemma_line_connected(x0: int, y0: int, x1: int, y1: int, k: int)
    requires
        0 <= k < line_steps(x0, y0, x1, y1),
    ensures
        ({
            let here = line_point(x0, y0, x1, y1, k);
            let next = line_point(x0, y0, x1, y1, k + 1);
            &&& -1 <= next.0 - here.0 <= 1
            &&& -1 <= next.1 - here.1 <= 1
            &&& next != here
        }),
{
    let n = line_steps(x0, y0, x1, y1);
    lemma_scaled_next(k, span(x0, x1), n);
    lemma_scaled_next(k, span(y0, y1), n);
    lemma_scaled_major(k, n);
    lemma_scaled_major(k + 1, n);
}

} // verus!
