//! The integer side of kernel density splatting: what a splat fills its
//! grid with, which cell a sample falls in, and which cells its kernel
//! reaches. The kernel's values themselves are left to the caller.
//!
//! The kernel's bandwidth follows two rules, kept on purpose: a 1D splat of
//! `n` samples over a width `w` uses `w / (2 n)`, and a 2D splat uses
//! `w / (2 sqrt(n))` on each axis, since `n` samples spread over a plane
//! thin out as `sqrt(n)` along either axis. With a grid step of `w / size`,
//! the 1D kernel reaches `round(5 size / (2 n))` cells either side of its
//! sample's cell.

use vstd::arithmetic::div_mod::lemma_fundamental_div_mod_converse;
use vstd::prelude::*;

verus! {

/// What a splat fills its grid with.
#[derive(Clone, Copy, Debug, PartialEq, Eq, Structural)]
pub enum SplatFill {
    /// No sample: every cell is 0.
    Zeros,
    /// An axis of zero width: every cell is 1, a flat plane.
    Ones,
    /// Each cell sums the kernels of the samples that reach it.
    Density,
}

/// The fill of a 1D splat over `range` with `sample_count` samples: zeros
/// without samples, else ones on a range of zero width, else the density.
pub fn fill_1d(range: (i64, i64), sample_count: usize) -> (r: SplatFill)
    ensures
        sample_count == 0 ==> r == SplatFill::Zeros,
        sample_count > 0 && range.0 == range.1 ==> r == SplatFill::Ones,
        sample_count > 0 && range.0 != range.1 ==> r == SplatFill::Density,
{
    if sample_count == 0 {
        SplatFill::Zeros
    } else if range.0 == range.1 {
        SplatFill::Ones
    } else {
        SplatFill::Density
    }
}

/// The fill of a 2D splat: zeros without samples, else ones where either
/// axis has zero width, else the density.
pub fn fill_2d(ranges: ((i64, i64), (i64, i64)), sample_count: usize) -> (r: SplatFill)
    ensures
        sample_count == 0 ==> r == SplatFill::Zeros,
        sample_count > 0 && (ranges.0.0 == ranges.0.1 || ranges.1.0 == ranges.1.1) ==> r
            == SplatFill::Ones,
        sample_count > 0 && ranges.0.0 != ranges.0.1 && ranges.1.0 != ranges.1.1 ==> r
            == SplatFill::Density,
{
    if sample_count == 0 {
        SplatFill::Zeros
    } else if ranges.0.0 == ranges.0.1 || ranges.1.0 == ranges.1.1 {
        SplatFill::Ones
    } else {
        SplatFill::Density
    }
}

/// `a / b` rounded to the nearest integer, halves away from zero (`b > 0`).
pub open spec fn round_div(a: int, b: int) -> int {
    if a >= 0 {
        (2 * a + b) / (2 * b)
    } else {
        -((-2 * a + b) / (2 * b))
    }
}

/// The cell of a grid of `size` cells over `range` that `value` rounds to:
/// `round((value - range.0) / step)` with `step = (range.1 - range.0) / size`.
/// It may lie outside `[0, size)`.
pub open spec fn grid_cell(value: i64, range: (i64, i64), size: usize) -> int {
    if range.1 > range.0 {
        round_div((value - range.0) * size, range.1 - range.0)
    } else {
        round_div((range.0 - value) * size, range.0 - range.1)
    }
}

/// How many cells either side of its own a 1D kernel reaches, for `size`
/// cells and `sample_count` samples: `round(5 size / (2 sample_count))`.
pub open spec fn kernel_bloom_1d(size: usize, sample_count: usize) -> int {
    round_div(5 * size, 2 * sample_count)
}

/// Rounding a non-negative quotient: up exactly when twice the remainder
/// reaches the divisor.
proof fn lemma_round_div(a: int, b: int)
    requires
        a >= 0,
        b > 0,
    ensures
        round_div(a, b) == a / b + if 2 * (a % b) >= b { 1int } else { 0int },
        a / b >= 0,
        0 <= a % b < b,
        a / b * b + a % b == a,
{
    let q = a / b;
    let r = a % b;
    vstd::arithmetic::div_mod::lemma_fundamental_div_mod(a, b);
    vstd::arithmetic::div_mod::lemma_mod_pos_bound(a, b);
    assert(q * b == b * q) by (nonlinear_arith);
    assert(q >= 0) by {
        vstd::arithmetic::div_mod::lemma_div_pos_is_pos(a, b);
    }
    if 2 * r >= b {
        assert(2 * a + b == (q + 1) * (2 * b) + (2 * r - b)) by (nonlinear_arith)
            requires
                a == q * b + r,
        ;
        lemma_fundamental_div_mod_converse(2 * a + b, 2 * b, q + 1, 2 * r - b);
    } else {
        assert(2 * a + b == q * (2 * b) + (2 * r + b)) by (nonlinear_arith)
            requires
                a == q * b + r,
        ;
        lemma_fundamental_div_mod_converse(2 * a + b, 2 * b, q, 2 * r + b);
    }
}

/// `n / d` rounded to the nearest integer, halves up.
fn round_quotient(n: u128, d: u128) -> (r: u128)
    requires
        d > 0,
    ensures
        r == round_div(n as int, d as int),
{
    let q = n / d;
    let rem = n % d;
    proof {
        lemma_round_div(n as int, d as int);
        if d == 1 {
            assert(rem == 0);
        } else {
            assert(q <= n / 2) by {
                vstd::arithmetic::div_mod::lemma_div_is_ordered_by_denominator(n as int, 2, d as int);
            }
        }
    }
    if rem >= d - rem {
        q + 1
    } else {
        q
    }
}

/// The cell that `value` rounds to, as a sign and a magnitude.
fn cell_center(value: i64, range: (i64, i64), size: usize) -> (r: (bool, u128))
    requires
        range.0 != range.1,
    ensures
        (if r.0 { -(r.1 as int) } else { r.1 as int }) == grid_cell(value, range, size),
        r.0 ==> r.1 > 0,
{
    let (d, w): (i128, i128) = if range.1 > range.0 {
        (value as i128 - range.0 as i128, range.1 as i128 - range.0 as i128)
    } else {
        (range.0 as i128 - value as i128, range.0 as i128 - range.1 as i128)
    };
    let neg = d < 0;
    let mag: u128 = if neg {
        (-d) as u128
    } else {
        d as u128
    };
    assert(mag * size <= 0xffff_ffff_ffff_ffff * 0xffff_ffff_ffff_ffff) by (nonlinear_arith)
        requires
            mag <= 0xffff_ffff_ffff_ffff,
            size <= 0xffff_ffff_ffff_ffff,
    ;
    let a: u128 = mag * (size as u128);
    let m = round_quotient(a, w as u128);
    proof {
        assert(grid_cell(value, range, size) == round_div(d * size, w as int));
        if neg {
            assert((d * size) == -(mag * size)) by (nonlinear_arith)
                requires
                    mag == -d,
            ;
            if d * size >= 0 {
                assert(mag * size == 0);
                lemma_round_div(0, w as int);
                assert(round_div(d * size, w as int) == -round_div(a as int, w as int));
            } else {
                assert(-2 * (d * size) == 2 * a);
                assert(round_div(d * size, w as int) == -round_div(a as int, w as int));
            }
        } else {
            assert((d * size) == (mag * size)) by (nonlinear_arith)
                requires
                    mag == d,
            ;
        }
    }
    (neg && m > 0, m)
}

/// `x` brought into `[lo, hi]`.
pub open spec fn clamp(x: int, lo: int, hi: int) -> int {
    if x < lo {
        lo
    } else if x > hi {
        hi
    } else {
        x
    }
}

/// The larger of two integers.
pub open spec fn max_of(a: int, b: int) -> int {
    if a >= b {
        a
    } else {
        b
    }
}

/// The cells `[r.0, r.1)` of a grid of `size` cells over `range` that lie
/// within `bloom` cells of the cell that `value` rounds to: from that cell
/// less `bloom` to that cell plus `bloom`, both ends kept inside the grid.
pub fn cell_span(value: i64, range: (i64, i64), size: usize, bloom: u128) -> (r: (usize, usize))
    requires
        range.0 != range.1,
    ensures
        r.0 <= r.1 <= size,
        r.0 == clamp(grid_cell(value, range, size) - bloom, 0, size as int),
        r.1 == max_of(r.0 as int, clamp(grid_cell(value, range, size) + bloom + 1, 0, size as int)),
{
    let (neg, m) = cell_center(value, range, size);
    let s = size as u128;
    if !neg {
        let lo: u128 = if m > bloom {
            m - bloom
        } else {
            0
        };
        if lo >= s {
            (size, size)
        } else {
            let hi: u128 = if bloom >= s {
                s
            } else if m + bloom + 1 > s {
                s
            } else {
                m + bloom + 1
            };
            (lo as usize, hi as usize)
        }
    } else {
        if bloom < m {
            (0, 0)
        } else {
            let reach: u128 = bloom - m;
            let hi: u128 = if reach >= s {
                s
            } else {
                reach + 1
            };
            (0, hi as usize)
        }
    }
}

/// The cells `[r.0, r.1)` that a 1D kernel of a sample at `value` reaches,
/// on a grid of `size` cells over `range` splatted from `sample_count`
/// samples.
pub fn influence_1d(value: i64, range: (i64, i64), size: usize, sample_count: usize) -> (r: (
    usize,
    usize,
))
    requires
        range.0 != range.1,
        sample_count > 0,
    ensures
        r.0 <= r.1 <= size,
        r.0 == clamp(
            grid_cell(value, range, size) - kernel_bloom_1d(size, sample_count),
            0,
            size as int,
        ),
        r.1 == max_of(
            r.0 as int,
            clamp(
                grid_cell(value, range, size) + kernel_bloom_1d(size, sample_count) + 1,
                0,
                size as int,
            ),
        ),
{
    let bloom = round_quotient(5 * (size as u128), 2 * (sample_count as u128));
    cell_span(value, range, size, bloom)
}

} // verus!
