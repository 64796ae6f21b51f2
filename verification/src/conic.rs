//! A hyperbola by the midpoint algorithm, mirrored into the four quadrants
//! around its centre.
//!
//! The curve is traced from its right vertex `(a, 0)` upwards, one row for
//! each step. A decision value tells whether the step also moves one column
//! outwards. Each traced point is drawn together with its three mirror
//! images; the drawing ends with the last step whose four points all lie
//! inside the buffers.

use vstd::prelude::*;
use crate::color::Bgra8;
use crate::rasterizer::Rasterizer;

verus! {

/// The decision value of the step from row `k` to the next, with the curve
/// `x` columns from the centre: it starts at `4a² - ab² - b²` for the right
/// vertex, grows by `4a²(2k + 3)` with each row and falls by `8b²(x + 1)`
/// with each column.
pub open spec fn hyperbola_decision(a: int, b: int, x: int, k: int) -> int {
    4 * a * a * ((k + 1) * (k + 1)) - b * b * ((2 * x + 1) * (2 * x + 1)) + 4 * a * a * (b * b) + 3
        * a * (b * b)
}

/// How many columns from the centre the curve is in row `k`: `a` in row 0,
/// and one more than in the row before wherever the decision value of that
/// row is positive.
pub open spec fn hyperbola_x(a: int, b: int, k: int) -> int
    decreases k,
{
    if k <= 0 {
        a
    } else {
        let x = hyperbola_x(a, b, k - 1);
        if hyperbola_decision(a, b, x, k - 1) > 0 {
            x + 1
        } else {
            x
        }
    }
}

/// The point `x` columns right of and `k` rows above the centre, with its
/// three mirror images.
pub open spec fn mirrored(cx: int, cy: int, x: int, k: int) -> Set<(int, int)> {
    set![(cx + x, cy + k), (cx - x, cy + k), (cx - x, cy - k), (cx + x, cy - k)]
}

/// Whether the four points of row `k` lie inside buffers of `width` by
/// `height` pixels.
pub open spec fn step_inside(width: int, height: int, a: int, b: int, cx: int, cy: int, k: int) -> bool {
    let x = hyperbola_x(a, b, k);
    &&& 0 <= cx + x < width
    &&& 0 <= cx - x < width
    &&& 0 <= cy + k < height
    &&& 0 <= cy - k < height
}

/// Whether row `k` is drawn: no row up to it leaves the buffers.
pub open spec fn step_drawn(width: int, height: int, a: int, b: int, cx: int, cy: int, k: int) -> bool {
    0 <= k && forall|j: int| 0 <= j <= k ==> #[trigger] step_inside(width, height, a, b, cx, cy, j)
}

/// The points of the first `n` rows.
spec fn hyperbola_rows(a: int, b: int, cx: int, cy: int, n: int) -> Set<(int, int)> {
    Set::new(
        |p: (int, int)|
            exists|k: int|
                0 <= k < n && (#[trigger] mirrored(cx, cy, hyperbola_x(a, b, k), k)).contains(p),
    )
}

/// The pixels of the hyperbola with semi-axes `a` and `b` around
/// `(cx, cy)`, as far as it is drawn into buffers of `width` by `height`
/// pixels.
pub open spec fn hyperbola_pixels(width: int, height: int, a: int, b: int, cx: int, cy: int) -> Set<(int, int)> {
    Set::new(
        |p: (int, int)|
            exists|k: int|
                step_drawn(width, height, a, b, cx, cy, k) && (#[trigger] mirrored(
                    cx,
                    cy,
                    hyperbola_x(a, b, k),
                    k,
                )).contains(p),
    )
}

/// How the decision value changes with a row and with a column.
proof fn lemma_decision_step(a: int, b: int, x: int, k: int)
    ensures
        hyperbola_decision(a, b, x, k + 1) == hyperbola_decision(a, b, x, k) + 4 * (a * a) * (2 * k
            + 3),
        hyperbola_decision(a, b, x + 1, k + 1) == hyperbola_decision(a, b, x, k) + 4 * (a * a) * (2
            * k + 3) - 8 * (b * b) * (x + 1),
        hyperbola_decision(a, b, a, 0) == 4 * (a * a) - a * (b * b) - b * b,
{
    let a2 = a * a;
    let b2 = b * b;
    assert(4 * a * a == 4 * a2) by (nonlinear_arith)
        requires
            a2 == a * a,
    ;
    assert((k + 2) * (k + 2) == (k + 1) * (k + 1) + (2 * k + 3)) by (nonlinear_arith);
    assert(4 * a2 * ((k + 1) * (k + 1) + (2 * k + 3)) == 4 * a2 * ((k + 1) * (k + 1)) + 4 * a2 * (2
        * k + 3)) by (nonlinear_arith);
    assert((2 * (x + 1) + 1) * (2 * (x + 1) + 1) == (2 * x + 1) * (2 * x + 1) + 8 * (x + 1))
        by (nonlinear_arith);
    assert(b2 * ((2 * x + 1) * (2 * x + 1) + 8 * (x + 1)) == b2 * ((2 * x + 1) * (2 * x + 1)) + 8
        * b2 * (x + 1)) by (nonlinear_arith);
    assert(4 * a2 * ((0 + 1) * (0 + 1)) == 4 * a2) by (nonlinear_arith);
    assert((2 * a + 1) * (2 * a + 1) == 4 * a2 + 4 * a + 1) by (nonlinear_arith)
        requires
            a2 == a * a,
    ;
    assert(b2 * (4 * a2 + 4 * a + 1) == 4 * a2 * b2 + 4 * a * b2 + b2) by (nonlinear_arith);
    assert(3 * a * b2 == 3 * (a * b2)) by (nonlinear_arith);
    assert(4 * a * b2 == 4 * (a * b2)) by (nonlinear_arith);
}

/// While the curve stays inside the buffers the decision value is small
/// enough to be tracked in 128 bits.
proof fn lemma_decision_bound(a: int, b: int, x: int, k: int)
    requires
        -0x8000_0000 <= a <= 0x8000_0000,
        -0x8000_0000 <= b <= 0x8000_0000,
        -0x8000_0000 <= x <= 0x8000_0000,
        0 <= k + 1 <= 0x7fff_ffff,
    ensures
        -0x7000_0000_0000_0000_0000_0000_0000_0000 <= hyperbola_decision(a, b, x, k)
            <= 0x7fff_ffff_8000_0000_0000_0000_0000_0000,
        0 <= a * a <= 0x4000_0000_0000_0000,
        0 <= b * b <= 0x4000_0000_0000_0000,
{
    let a2 = a * a;
    let b2 = b * b;
    let k2 = (k + 1) * (k + 1);
    let x2 = (2 * x + 1) * (2 * x + 1);
    assert(0 <= a2 <= 0x4000_0000_0000_0000) by (nonlinear_arith)
        requires
            a2 == a * a,
            -0x8000_0000 <= a <= 0x8000_0000,
    ;
    assert(0 <= b2 <= 0x4000_0000_0000_0000) by (nonlinear_arith)
        requires
            b2 == b * b,
            -0x8000_0000 <= b <= 0x8000_0000,
    ;
    assert(0 <= k2 <= 0x7fff_ffff * 0x7fff_ffff) by (nonlinear_arith)
        requires
            k2 == (k + 1) * (k + 1),
            0 <= k + 1 <= 0x7fff_ffff,
    ;
    assert(0 <= x2 <= 0x1_0000_0001 * 0x1_0000_0001) by (nonlinear_arith)
        requires
            x2 == (2 * x + 1) * (2 * x + 1),
            -0x1_0000_0001 <= 2 * x + 1 <= 0x1_0000_0001,
    ;
    assert(4 * a * a == 4 * a2) by (nonlinear_arith)
        requires
            a2 == a * a,
    ;
    assert(0 <= 4 * a2 * k2 <= 4 * 0x4000_0000_0000_0000 * (0x7fff_ffff * 0x7fff_ffff))
        by (nonlinear_arith)
        requires
            0 <= a2 <= 0x4000_0000_0000_0000,
            0 <= k2 <= 0x7fff_ffff * 0x7fff_ffff,
    ;
    assert(0 <= b2 * x2 <= 0x4000_0000_0000_0000 * (0x1_0000_0001 * 0x1_0000_0001))
        by (nonlinear_arith)
        requires
            0 <= b2 <= 0x4000_0000_0000_0000,
            0 <= x2 <= 0x1_0000_0001 * 0x1_0000_0001,
    ;
    assert(0 <= 4 * a2 * b2 <= 4 * 0x4000_0000_0000_0000 * 0x4000_0000_0000_0000)
        by (nonlinear_arith)
        requires
            0 <= a2 <= 0x4000_0000_0000_0000,
            0 <= b2 <= 0x4000_0000_0000_0000,
    ;
    assert(-3 * 0x8000_0000 * 0x4000_0000_0000_0000 <= 3 * a * b2 <= 3 * 0x8000_0000
        * 0x4000_0000_0000_0000) by (nonlinear_arith)
        requires
            -0x8000_0000 <= a <= 0x8000_0000,
            0 <= b2 <= 0x4000_0000_0000_0000,
    ;
}

/// The drawn hyperbola is symmetric about both axes through its centre.
pub proof fn lemma_hyperbola_symmetric(width: int, height: int, a: int, b: int, cx: int, cy: int, p: (int, int))
    requires
        hyperbola_pixels(width, height, a, b, cx, cy).contains(p),
    ensures
        hyperbola_pixels(width, height, a, b, cx, cy).contains((2 * cx - p.0, p.1)),
        hyperbola_pixels(width, height, a, b, cx, cy).contains((p.0, 2 * cy - p.1)),
        width > 0 && height > 0 && 0 <= p.0 < width && 0 <= p.1 < height,
{
    let k = choose|k: int|
        step_drawn(width, height, a, b, cx, cy, k) && (#[trigger] mirrored(
            cx,
            cy,
            hyperbola_x(a, b, k),
            k,
        )).contains(p);
    let m = mirrored(cx, cy, hyperbola_x(a, b, k), k);
    assert(m.contains((2 * cx - p.0, p.1)));
    assert(m.contains((p.0, 2 * cy - p.1)));
    assert(step_inside(width, height, a, b, cx, cy, k));
}

impl<S> Rasterizer<S> {
    /// Draws the hyperbola with semi-axes `a` and `b` around `center`: the
    /// pixels `hyperbola_pixels` take `color`.
    pub fn draw_hyperbola(&mut self, a: i32, b: i32, center: (i32, i32), color: Bgra8)
        requires
            old(self)@.wf(),
        ensures
            final(self)@ == old(self)@.paint(
                hyperbola_pixels(
                    old(self)@.width as int,
                    old(self)@.height as int,
                    a as int,
                    b as int,
                    center.0 as int,
                    center.1 as int,
                ),
                color,
            ),
            final(self)@.wf(),
    {
        let width: i128 = self.width() as i128;
        let height: i128 = self.height() as i128;
        let cx: i128 = center.0 as i128;
        let cy: i128 = center.1 as i128;
        proof {
            assert(0 <= a * a <= 0x4000_0000_0000_0000 && 0 <= b * b <= 0x4000_0000_0000_0000)
                by (nonlinear_arith)
                requires
                    -0x8000_0000 <= a <= 0x8000_0000,
                    -0x8000_0000 <= b <= 0x8000_0000,
            ;
        }
        let a2: i128 = (a as i128) * (a as i128);
        let b2: i128 = (b as i128) * (b as i128);
        let ghost w = old(self)@.width as int;
        let ghost h = old(self)@.height as int;
        let ghost (ai, bi, cxi, cyi) = (a as int, b as int, center.0 as int, center.1 as int);
        let mut x: i128 = a as i128;
        let mut k: i128 = 0;
        let mut d: i128 = 0;
        proof {
            old(self)@.lemma_paint_empty(color);
            assert(hyperbola_rows(ai, bi, cxi, cyi, 0) =~= Set::<(int, int)>::empty());
        }
        if cy > 0 {
            proof {
                lemma_decision_step(ai, bi, ai, 0);
                lemma_decision_bound(ai, bi, ai, 0);
                assert(-0x8000_0000 * 0x4000_0000_0000_0000 <= a * b2 <= 0x8000_0000
                    * 0x4000_0000_0000_0000) by (nonlinear_arith)
                    requires
                        -0x8000_0000 <= a <= 0x8000_0000,
                        0 <= b2 <= 0x4000_0000_0000_0000,
                ;
            }
            d = 4 * a2 - (a as i128) * b2 - b2;
        }
        loop
            invariant_except_break
                self@.wf(),
                self@.width == w,
                self@.height == h,
                width == w,
                height == h,
                cx == cxi,
                cy == cyi,
                ai == a,
                bi == b,
                cxi == center.0,
                cyi == center.1,
                a2 == ai * ai,
                b2 == bi * bi,
                0 <= a2 <= 0x4000_0000_0000_0000,
                0 <= b2 <= 0x4000_0000_0000_0000,
                0 <= k,
                k <= cy || k == 0,
                x == hyperbola_x(ai, bi, k as int),
                -0x8000_0000 <= x <= 0x8000_0000,
                k < cy ==> d == hyperbola_decision(ai, bi, x as int, k as int),
                forall|j: int| 0 <= j < k ==> #[trigger] step_inside(w, h, ai, bi, cxi, cyi, j),
                self@ == old(self)@.paint(hyperbola_rows(ai, bi, cxi, cyi, k as int), color),
            ensures
                self@.wf(),
                0 <= k,
                forall|j: int| 0 <= j < k ==> #[trigger] step_inside(w, h, ai, bi, cxi, cyi, j),
                !step_inside(w, h, ai, bi, cxi, cyi, k as int),
                self@ == old(self)@.paint(hyperbola_rows(ai, bi, cxi, cyi, k as int), color),
            decreases cy + 1 - k,
        {
            if cx + x < 0 || cx + x >= width || cx - x < 0 || cx - x >= width || cy + k >= height
                || cy - k < 0 || cy - k >= height {
                break ;
            }
            let ghost done = hyperbola_rows(ai, bi, cxi, cyi, k as int);
            proof {
                let ne = (cx + x, cy + k);
                let nw = (cx - x, cy + k);
                let sw = (cx - x, cy - k);
                let se = (cx + x, cy - k);
                old(self)@.lemma_paint_insert(done, ne.0, ne.1, color);
                old(self)@.lemma_paint_insert(done.insert(ne), nw.0, nw.1, color);
                old(self)@.lemma_paint_insert(done.insert(ne).insert(nw), sw.0, sw.1, color);
                old(self)@.lemma_paint_insert(done.insert(ne).insert(nw).insert(sw), se.0, se.1, color);
                let next = hyperbola_rows(ai, bi, cxi, cyi, k + 1);
                let m = mirrored(cxi, cyi, hyperbola_x(ai, bi, k as int), k as int);
                assert(m =~= set![ne, nw, sw, se]);
                assert forall|p: (int, int)|
                    done.insert(ne).insert(nw).insert(sw).insert(se).contains(p) <==> next.contains(
                        p,
                    ) by {
                    if next.contains(p) {
                        let j = choose|j: int|
                            0 <= j < k + 1 && (#[trigger] mirrored(
                                cxi,
                                cyi,
                                hyperbola_x(ai, bi, j),
                                j,
                            )).contains(p);
                        if j < k {
                            assert(done.contains(p));
                        }
                    }
                    if done.contains(p) {
                        let j = choose|j: int|
                            0 <= j < k && (#[trigger] mirrored(
                                cxi,
                                cyi,
                                hyperbola_x(ai, bi, j),
                                j,
                            )).contains(p);
                        assert(mirrored(cxi, cyi, hyperbola_x(ai, bi, j), j).contains(p));
                    }
                    if p == ne || p == nw || p == sw || p == se {
                        assert(m.contains(p));
                    }
                }
                assert(done.insert(ne).insert(nw).insert(sw).insert(se) =~= next);
            }
            self.plot((cx + x) as i64, (cy + k) as i64, color);
            self.plot((cx - x) as i64, (cy + k) as i64, color);
            self.plot((cx - x) as i64, (cy - k) as i64, color);
            self.plot((cx + x) as i64, (cy - k) as i64, color);
            if k >= cy {
                k += 1;
                proof {
                    assert(!step_inside(w, h, ai, bi, cxi, cyi, k as int));
                }
                // The next row would fall below the bottom of the buffers.
                break ;
            }
            proof {
                lemma_decision_step(ai, bi, x as int, k as int);
                lemma_decision_bound(ai, bi, x as int, k as int);
                if k + 1 < cy {
                    lemma_decision_bound(ai, bi, x as int, k + 1);
                    lemma_decision_bound(ai, bi, x + 1, k + 1);
                }
                assert(0 <= 4 * a2 * (2 * k + 3) <= 4 * 0x4000_0000_0000_0000 * 0x1_0000_0001)
                    by (nonlinear_arith)
                    requires
                        0 <= a2 <= 0x4000_0000_0000_0000,
                        0 <= 2 * k + 3 <= 0x1_0000_0001,
                ;
                assert(-8 * 0x4000_0000_0000_0000 * 0x8000_0001 <= 8 * b2 * (x + 1) <= 8
                    * 0x4000_0000_0000_0000 * 0x8000_0001) by (nonlinear_arith)
                    requires
                        0 <= b2 <= 0x4000_0000_0000_0000,
                        -0x8000_0001 <= x + 1 <= 0x8000_0001,
                ;
            }
            let outwards: bool = d > 0;
            if k + 1 < cy {
                let rise: i128 = 4 * a2 * (2 * k + 3);
                if outwards {
                    d = d + rise - 8 * b2 * (x + 1);
                } else {
                    d = d + rise;
                }
            }
            if outwards {
                x += 1;
            }
            k += 1;
        }
        proof {
            let rows = hyperbola_rows(ai, bi, cxi, cyi, k as int);
            let all = hyperbola_pixels(w, h, ai, bi, cxi, cyi);
            assert forall|p: (int, int)| rows.contains(p) <==> all.contains(p) by {
                if rows.contains(p) {
                    let j = choose|j: int|
                        0 <= j < k && (#[trigger] mirrored(cxi, cyi, hyperbola_x(ai, bi, j), j)).contains(
                            p,
                        );
                    assert(step_drawn(w, h, ai, bi, cxi, cyi, j));
                }
                if all.contains(p) {
                    let j = choose|j: int|
                        step_drawn(w, h, ai, bi, cxi, cyi, j) && (#[trigger] mirrored(
                            cxi,
                            cyi,
                            hyperbola_x(ai, bi, j),
                            j,
                        )).contains(p);
                    if j >= k {
                        assert(step_inside(w, h, ai, bi, cxi, cyi, k as int));
                    }
                }
            }
            assert(rows =~= all);
        }
    }
}

} // verus!
