//! Line segments by the midpoint algorithm.
//!
//! A segment is drawn along its longer axis, one pixel for each step from
//! the start up to, but not including, the end; on the other axis it follows
//! the ideal line, rounded to the nearest pixel.

use vstd::prelude::*;
use vstd::arithmetic::div_mod::{lemma_fundamental_div_mod, lemma_fundamental_div_mod_converse_div, lemma_mod_bound};
use crate::color::Bgra8;
use crate::rasterizer::Rasterizer;

verus! {

pub open spec fn abs(v: int) -> int {
    if v < 0 {
        -v
    } else {
        v
    }
}

/// `n / d` rounded to the nearest integer. A half is rounded up with a
/// bias of 0 and down with a bias of 1.
pub open spec fn round_half(n: int, d: int, bias: int) -> int {
    (2 * n + d - bias) / (2 * d)
}

/// `n / d` rounded to the nearest integer, a half rounded up.
pub open spec fn round_half_up(n: int, d: int) -> int {
    round_half(n, d, 0)
}

/// `n / d` rounded to the nearest integer, a half rounded down.
pub open spec fn round_half_down(n: int, d: int) -> int {
    round_half(n, d, 1)
}

/// Whether the segment is drawn along the y axis: it is taller than wide.
pub open spec fn steep(x0: int, y0: int, x1: int, y1: int) -> bool {
    abs(x1 - x0) < abs(y1 - y0)
}

/// The number of pixels of the segment: its extent along the longer axis.
pub open spec fn line_len(x0: int, y0: int, x1: int, y1: int) -> int {
    if steep(x0, y0, x1, y1) {
        abs(y1 - y0)
    } else {
        abs(x1 - x0)
    }
}

/// The endpoint from which the segment is drawn: the one with the smaller
/// coordinate on the longer axis.
pub open spec fn line_start(x0: int, y0: int, x1: int, y1: int) -> (int, int) {
    if steep(x0, y0, x1, y1) {
        if y1 < y0 {
            (x1, y1)
        } else {
            (x0, y0)
        }
    } else {
        if x1 < x0 {
            (x1, y1)
        } else {
            (x0, y0)
        }
    }
}

/// The direction on the shorter axis while the longer one increases.
pub open spec fn line_slope_sign(x0: int, y0: int, x1: int, y1: int) -> int {
    if (x1 < x0 && y1 < y0) || (x1 > x0 && y1 > y0) {
        1
    } else {
        -1
    }
}

/// The `k`-th pixel of the segment, counted from its start. A steep segment
/// rounds a half towards the start, any other away from it.
pub open spec fn line_pixel(x0: int, y0: int, x1: int, y1: int, k: int) -> (int, int) {
    let (xs, ys) = line_start(x0, y0, x1, y1);
    let s = line_slope_sign(x0, y0, x1, y1);
    if steep(x0, y0, x1, y1) {
        (xs + s * round_half_down(k * abs(x1 - x0), abs(y1 - y0)), ys + k)
    } else {
        (xs + k, ys + s * round_half_up(k * abs(y1 - y0), abs(x1 - x0)))
    }
}

/// The first `n` pixels of the segment.
pub open spec fn line_prefix(x0: int, y0: int, x1: int, y1: int, n: int) -> Set<(int, int)> {
    Set::new(
        |p: (int, int)| exists|k: int| 0 <= k < n && p == #[trigger] line_pixel(x0, y0, x1, y1, k),
    )
}

/// The pixels of the segment from `(x0, y0)` to `(x1, y1)`.
pub open spec fn line_pixels(x0: int, y0: int, x1: int, y1: int) -> Set<(int, int)> {
    line_prefix(x0, y0, x1, y1, line_len(x0, y0, x1, y1))
}

/// One step of rounding: the rounded quotient of `(k + 1) * a` by `b` is
/// that of `k * a`, plus one exactly when the midpoint test passes. Where
/// a half is rounded down, with a bias of 1, the test must pass strictly.
proof fn lemma_round_step(k: int, a: int, b: int, bias: int)
    requires
        0 <= k,
        0 <= a <= b,
        0 < b,
        bias == 0 || bias == 1,
    ensures
        ({
            let j = round_half(k * a, b, bias);
            &&& 0 <= j
            &&& 2 * j * b <= 2 * (k * a) + b - bias < 2 * (j + 1) * b
            &&& round_half((k + 1) * a, b, bias) == j + if 2 * ((k + 1) * a) >= (2 * j + 1) * b
                + bias {
                1int
            } else {
                0int
            }
            &&& j <= k
            &&& -2 * b <= 2 * ((k + 1) * a) - (2 * j + 1) * b <= 2 * a
            &&& 2 * ((k + 2) * a) == 2 * ((k + 1) * a) + 2 * a
            &&& (2 * (j + 1) + 1) * b == (2 * j + 1) * b + 2 * b
        }),
{
    let n = 2 * (k * a) + b - bias;
    let q = 2 * b;
    let j = n / q;
    assert(0 <= k * a) by (nonlinear_arith)
        requires
            0 <= k,
            0 <= a,
    ;
    lemma_fundamental_div_mod(n, q);
    lemma_mod_bound(n, q);
    let r = n % q;
    assert(q * j == 2 * j * b) by (nonlinear_arith)
        requires
            q == 2 * b,
    ;
    assert(0 <= j) by (nonlinear_arith)
        requires
            n == q * j + r,
            0 <= r < q,
            0 <= n,
            0 < q,
    ;
    assert((k + 1) * a == k * a + a) by (nonlinear_arith);
    assert((k + 2) * a == k * a + 2 * a) by (nonlinear_arith);
    assert((2 * j + 1) * b == 2 * j * b + b) by (nonlinear_arith);
    assert(2 * (j + 1) * b == 2 * j * b + 2 * b) by (nonlinear_arith);
    assert((2 * (j + 1) + 1) * b == 2 * j * b + 3 * b) by (nonlinear_arith);
    assert(k * a <= k * b) by (nonlinear_arith)
        requires
            0 <= k,
            a <= b,
    ;
    assert(j <= k) by (nonlinear_arith)
        requires
            2 * j * b <= 2 * (k * b) + b,
            0 < b,
    ;
    let n2 = 2 * ((k + 1) * a) + b - bias;
    let j2 = if 2 * ((k + 1) * a) >= (2 * j + 1) * b + bias { j + 1 } else { j };
    assert(j2 * q == if j2 == j { 2 * j * b } else { 2 * j * b + 2 * b }) by (nonlinear_arith)
        requires
            q == 2 * b,
            j2 == j || j2 == j + 1,
    ;
    lemma_fundamental_div_mod_converse_div(n2, q, j2, n2 - j2 * q);
}

/// Nothing rounds to nothing.
proof fn lemma_round_zero(b: int)
    requires
        0 < b,
    ensures
        round_half_up(0, b) == 0,
        round_half_down(0, b) == 0,
{
    lemma_fundamental_div_mod_converse_div(b, 2 * b, 0, b);
    lemma_fundamental_div_mod_converse_div(b - 1, 2 * b, 0, b - 1);
}

/// The first `k + 1` pixels are the first `k` and the `k`-th.
proof fn lemma_line_prefix_step(x0: int, y0: int, x1: int, y1: int, k: int)
    requires
        0 <= k,
    ensures
        line_prefix(x0, y0, x1, y1, k + 1) == line_prefix(x0, y0, x1, y1, k).union(
            set![line_pixel(x0, y0, x1, y1, k)],
        ),
        line_prefix(x0, y0, x1, y1, 0) == Set::<(int, int)>::empty(),
{
    assert(line_prefix(x0, y0, x1, y1, k + 1) =~= line_prefix(x0, y0, x1, y1, k).union(
        set![line_pixel(x0, y0, x1, y1, k)],
    ));
    assert(line_prefix(x0, y0, x1, y1, 0) =~= Set::<(int, int)>::empty());
}

/// A segment has the same pixels in either direction.
pub proof fn lemma_line_reversed(x0: int, y0: int, x1: int, y1: int)
    ensures
        line_pixels(x0, y0, x1, y1) == line_pixels(x1, y1, x0, y0),
{
    assert forall|k: int| line_pixel(x0, y0, x1, y1, k) == line_pixel(x1, y1, x0, y0, k) by {}
    assert(line_pixels(x0, y0, x1, y1) =~= line_pixels(x1, y1, x0, y0)) by {
        assert forall|p: (int, int)|
            line_pixels(x0, y0, x1, y1).contains(p) <==> line_pixels(x1, y1, x0, y0).contains(p) by {
            if line_pixels(x0, y0, x1, y1).contains(p) {
                let k = choose|k: int|
                    0 <= k < line_len(x0, y0, x1, y1) && p == #[trigger] line_pixel(x0, y0, x1, y1, k);
                assert(p == line_pixel(x1, y1, x0, y0, k));
            }
            if line_pixels(x1, y1, x0, y0).contains(p) {
                let k = choose|k: int|
                    0 <= k < line_len(x1, y1, x0, y0) && p == #[trigger] line_pixel(x1, y1, x0, y0, k);
                assert(p == line_pixel(x0, y0, x1, y1, k));
            }
        }
    }
}

/// A segment has one pixel for each step on its longer axis, and every
/// pixel lies within half a pixel of the ideal line through the two ends:
/// the `k`-th pixel is `k` steps from the start on the longer axis, and on
/// the shorter axis its distance from the ideal line, scaled by twice the
/// extent of the longer axis, is at most that extent.
pub proof fn lemma_line_near_ideal(x0: int, y0: int, x1: int, y1: int, k: int)
    requires
        0 <= k < line_len(x0, y0, x1, y1),
    ensures
        ({
            let p = line_pixel(x0, y0, x1, y1, k);
            let (xs, ys) = line_start(x0, y0, x1, y1);
            let (xe, ye) = if (xs, ys) == (x0, y0) {
                (x1, y1)
            } else {
                (x0, y0)
            };
            if steep(x0, y0, x1, y1) {
                &&& p.1 == ys + k
                &&& 2 * abs((p.0 - xs) * (ye - ys) - k * (xe - xs)) <= ye - ys
            } else {
                &&& p.0 == xs + k
                &&& 2 * abs((p.1 - ys) * (xe - xs) - k * (ye - ys)) <= xe - xs
            }
        }),
{
    let s = line_slope_sign(x0, y0, x1, y1);
    let a = if steep(x0, y0, x1, y1) { abs(x1 - x0) } else { abs(y1 - y0) };
    let b = if steep(x0, y0, x1, y1) { abs(y1 - y0) } else { abs(x1 - x0) };
    let j = if steep(x0, y0, x1, y1) { round_half_down(k * a, b) } else { round_half_up(k * a, b) };
    if steep(x0, y0, x1, y1) {
        lemma_round_step(k, a, b, 1);
    } else {
        lemma_round_step(k, a, b, 0);
    }
    // On the shorter axis the ends are `s * a` apart and the pixel is
    // `s * j` from the start.
    assert((s * j) * b - k * (s * a) == s * (j * b - k * a)) by (nonlinear_arith);
    assert(abs(s * (j * b - k * a)) == abs(j * b - k * a)) by (nonlinear_arith)
        requires
            s == 1 || s == -1,
    ;
    assert(2 * (j * b - k * a) == 2 * j * b - 2 * (k * a)) by (nonlinear_arith);
    assert(2 * (j + 1) * b == 2 * j * b + 2 * b) by (nonlinear_arith);
    assert(s * a == if s == 1 { a } else { -a }) by (nonlinear_arith)
        requires
            s == 1 || s == -1,
    ;
}

impl<S> Rasterizer<S> {
    /// Draws the segment from `from` to `to`: the pixels `line_pixels` of
    /// it that lie inside the buffers take `color`. The end of the segment
    /// on its longer axis is left out, so a segment between equal points
    /// draws nothing.
    pub fn draw_line(&mut self, from: (i32, i32), to: (i32, i32), color: Bgra8)
        requires
            old(self)@.wf(),
        ensures
            final(self)@ == old(self)@.paint(
                line_pixels(from.0 as int, from.1 as int, to.0 as int, to.1 as int),
                color,
            ),
            final(self)@.wf(),
    {
        let x0: i64 = from.0 as i64;
        let y0: i64 = from.1 as i64;
        let x1: i64 = to.0 as i64;
        let y1: i64 = to.1 as i64;
        let dx: i64 = x1 - x0;
        let dy: i64 = y1 - y0;
        let dx_abs: i64 = if dx < 0 { -dx } else { dx };
        let dy_abs: i64 = if dy < 0 { -dy } else { dy };
        let s: i64 = if (dx < 0 && dy < 0) || (dx > 0 && dy > 0) { 1 } else { -1 };
        let ghost x0i = x0 as int;
        let ghost y0i = y0 as int;
        let ghost x1i = x1 as int;
        let ghost y1i = y1 as int;
        proof {
            lemma_line_prefix_step(x0i, y0i, x1i, y1i, 0);
            old(self)@.lemma_paint_empty(color);
        }
        if dx_abs < dy_abs {
            let (mut x, mut y, y_end): (i64, i64, i64) = if dy < 0 { (x1, y1, y0) } else { (x0, y0, y1) };
            let ghost xs = x as int;
            let ghost ys = y as int;
            let mut d: i64 = 2 * dx_abs - dy_abs;
            proof {
                lemma_round_zero(dy_abs as int);
                assert((y - ys) * dx_abs == 0) by (nonlinear_arith)
                    requires
                        y == ys,
                ;
                assert((y - ys + 1) * dx_abs == dx_abs) by (nonlinear_arith)
                    requires
                        y == ys,
                ;
                assert(s * 0 == 0) by (nonlinear_arith);
            }
            while y < y_end
                invariant
                    self@.wf(),
                    dx == x1 - x0,
                    dy == y1 - y0,
                    dx_abs == abs(x1i - x0i),
                    dy_abs == abs(y1i - y0i),
                    dx_abs < dy_abs,
                    dy_abs <= 0xffff_ffff,
                    s == line_slope_sign(x0i, y0i, x1i, y1i),
                    (xs, ys) == line_start(x0i, y0i, x1i, y1i),
                    y_end == ys + dy_abs,
                    ys <= y <= y_end,
                    x == xs + s * round_half_down((y - ys) * dx_abs, dy_abs as int),
                    -0x1_0000_0000 <= x - xs <= 0x1_0000_0000,
                    -0x8000_0000 <= xs <= 0x7fff_ffff,
                    -0x8000_0000 <= ys <= 0x7fff_ffff,
                    d == 2 * ((y - ys + 1) * dx_abs) - (2 * round_half_down((y - ys) * dx_abs, dy_abs as int) + 1) * dy_abs,
                    self@ == old(self)@.paint(line_prefix(x0i, y0i, x1i, y1i, y - ys), color),
                decreases y_end - y,
            {
                let ghost k = y - ys;
                proof {
                    lemma_round_step(k, dx_abs as int, dy_abs as int, 1);
                    lemma_line_prefix_step(x0i, y0i, x1i, y1i, k);
                    old(self)@.lemma_paint_union(
                        line_prefix(x0i, y0i, x1i, y1i, k),
                        set![line_pixel(x0i, y0i, x1i, y1i, k)],
                        color,
                    );
                    let j = round_half_down(k * dx_abs, dy_abs as int);
                    assert(s * j == if s == 1 { j } else { -j }) by (nonlinear_arith)
                        requires
                            s == 1 || s == -1,
                    ;
                    assert(s * (j + 1) == s * j + s) by (nonlinear_arith);
                }
                self.plot(x, y, color);
                y += 1;
                if d <= 0 {
                    d += 2 * dx_abs;
                } else {
                    x += s;
                    d += 2 * (dx_abs - dy_abs);
                }
            }
            proof {
                assert(line_len(x0i, y0i, x1i, y1i) == y_end - ys);
            }
        } else {
            let (mut x, mut y, x_end): (i64, i64, i64) = if dx < 0 { (x1, y1, x0) } else { (x0, y0, x1) };
            let ghost xs = x as int;
            let ghost ys = y as int;
            let mut d: i64 = 2 * dy_abs - dx_abs;
            proof {
                if dx_abs > 0 {
                    lemma_round_zero(dx_abs as int);
                }
                assert((x - xs) * dy_abs == 0) by (nonlinear_arith)
                    requires
                        x == xs,
                ;
                assert((x - xs + 1) * dy_abs == dy_abs) by (nonlinear_arith)
                    requires
                        x == xs,
                ;
                assert(s * 0 == 0) by (nonlinear_arith);
            }
            while x < x_end
                invariant
                    self@.wf(),
                    dx == x1 - x0,
                    dy == y1 - y0,
                    dx_abs == abs(x1i - x0i),
                    dy_abs == abs(y1i - y0i),
                    dy_abs <= dx_abs,
                    dx_abs <= 0xffff_ffff,
                    s == line_slope_sign(x0i, y0i, x1i, y1i),
                    (xs, ys) == line_start(x0i, y0i, x1i, y1i),
                    x_end == xs + dx_abs,
                    xs <= x <= x_end,
                    x < x_end ==> y == ys + s * round_half_up((x - xs) * dy_abs, dx_abs as int),
                    -0x1_0000_0000 <= y - ys <= 0x1_0000_0000,
                    -0x8000_0000 <= xs <= 0x7fff_ffff,
                    -0x8000_0000 <= ys <= 0x7fff_ffff,
                    x < x_end ==> d == 2 * ((x - xs + 1) * dy_abs) - (2 * round_half_up((x - xs) * dy_abs, dx_abs as int) + 1) * dx_abs,
                    self@ == old(self)@.paint(line_prefix(x0i, y0i, x1i, y1i, x - xs), color),
                decreases x_end - x,
            {
                let ghost k = x - xs;
                proof {
                    lemma_round_step(k, dy_abs as int, dx_abs as int, 0);
                    lemma_line_prefix_step(x0i, y0i, x1i, y1i, k);
                    old(self)@.lemma_paint_union(
                        line_prefix(x0i, y0i, x1i, y1i, k),
                        set![line_pixel(x0i, y0i, x1i, y1i, k)],
                        color,
                    );
                    let j = round_half_up(k * dy_abs, dx_abs as int);
                    assert(s * j == if s == 1 { j } else { -j }) by (nonlinear_arith)
                        requires
                            s == 1 || s == -1,
                    ;
                    assert(s * (j + 1) == s * j + s) by (nonlinear_arith);
                }
                self.plot(x, y, color);
                x += 1;
                if d < 0 {
                    d += 2 * dy_abs;
                } else {
                    y += s;
                    d += 2 * (dy_abs - dx_abs);
                }
            }
            proof {
                assert(line_len(x0i, y0i, x1i, y1i) == x_end - xs);
            }
        }
    }
}

} // verus!
