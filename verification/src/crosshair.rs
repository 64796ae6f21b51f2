//! A crosshair at the centre of the image.

use vstd::prelude::*;
use crate::color::Bgra8;
use crate::rasterizer::Rasterizer;

verus! {

/// The first `n` columns of the horizontal bar: three pixels high, centred
/// on the row `cy`, starting at the column `left`.
pub open spec fn bar_horizontal(left: int, cy: int, n: int) -> Set<(int, int)> {
    Set::new(|p: (int, int)| left <= p.0 < left + n && cy - 1 <= p.1 <= cy + 1)
}

/// The first `n` rows of the vertical bar: three pixels wide, centred on
/// the column `cx`, starting at the row `bottom`.
pub open spec fn bar_vertical(cx: int, bottom: int, n: int) -> Set<(int, int)> {
    Set::new(|p: (int, int)| cx - 1 <= p.0 <= cx + 1 && bottom <= p.1 < bottom + n)
}

/// The pixels of a crosshair of the given size on an image of `width` by
/// `height` pixels: two bars, `size` long and three thick, that cross at
/// the centre `(width / 2, height / 2)`.
pub open spec fn crosshair_pixels(width: int, height: int, size: int) -> Set<(int, int)> {
    let cx = width / 2;
    let cy = height / 2;
    bar_horizontal(cx - size / 2, cy, size).union(bar_vertical(cx, cy - size / 2, size))
}

impl<S> Rasterizer<S> {
    /// Draws a crosshair of the given size at the centre of the image. The
    /// bars must start inside the image: the size is at most one more than
    /// the width and the height.
    pub fn draw_crosshair(&mut self, size: usize, color: Bgra8)
        requires
            old(self)@.wf(),
            size / 2 <= old(self)@.width / 2,
            size / 2 <= old(self)@.height / 2,
            size > 0 ==> old(self)@.width >= 2 && old(self)@.height >= 2,
        ensures
            final(self)@ == old(self)@.paint(
                crosshair_pixels(old(self)@.width as int, old(self)@.height as int, size as int),
                color,
            ),
            final(self)@.wf(),
    {
        let w: usize = self.width();
        let h: usize = self.height();
        let cx: usize = w / 2;
        let cy: usize = h / 2;
        proof {
            if size > 0 {
                assert(w * 2 <= w * h) by (nonlinear_arith)
                    requires
                        2 <= h,
                        0 <= w,
                ;
                assert(h * 2 <= w * h) by (nonlinear_arith)
                    requires
                        2 <= w,
                        0 <= h,
                ;
            }
        }
        let lx: usize = cx - size / 2;
        let dy: usize = cy - size / 2;
        proof {
            old(self)@.lemma_paint_empty(color);
            assert(bar_horizontal(lx as int, cy as int, 0) =~= Set::<(int, int)>::empty());
        }
        let mut i: usize = 0;
        while i < size
            invariant
                self@.wf(),
                i <= size,
                w == old(self)@.width,
                h == old(self)@.height,
                cx == w / 2,
                cy == h / 2,
                size / 2 <= cx,
                size / 2 <= cy,
                size > 0 ==> w * 2 <= usize::MAX && h * 2 <= usize::MAX,
                lx == cx - size / 2,
                size > 0 ==> cy >= 1,
                self@ == old(self)@.paint(bar_horizontal(lx as int, cy as int, i as int), color),
            decreases size - i,
        {
            let x: usize = lx + i;
            let ghost done = bar_horizontal(lx as int, cy as int, i as int);
            proof {
                old(self)@.lemma_paint_insert(done, x as int, cy - 1, color);
                old(self)@.lemma_paint_insert(done.insert((x as int, cy - 1)), x as int, cy as int, color);
                old(self)@.lemma_paint_insert(
                    done.insert((x as int, cy - 1)).insert((x as int, cy as int)),
                    x as int,
                    cy + 1,
                    color,
                );
                assert(done.insert((x as int, cy - 1)).insert((x as int, cy as int)).insert(
                    (x as int, cy + 1),
                ) =~= bar_horizontal(lx as int, cy as int, i + 1));
            }
            self.set_pixel(x, cy - 1, color);
            self.set_pixel(x, cy, color);
            self.set_pixel(x, cy + 1, color);
            i += 1;
        }
        let ghost across = bar_horizontal(lx as int, cy as int, size as int);
        proof {
            assert(across.union(bar_vertical(cx as int, dy as int, 0)) =~= across);
        }
        let mut j: usize = 0;
        while j < size
            invariant
                self@.wf(),
                j <= size,
                w == old(self)@.width,
                h == old(self)@.height,
                cx == w / 2,
                cy == h / 2,
                size / 2 <= cx,
                size / 2 <= cy,
                size > 0 ==> w * 2 <= usize::MAX && h * 2 <= usize::MAX,
                dy == cy - size / 2,
                size > 0 ==> cx >= 1,
                across == bar_horizontal(lx as int, cy as int, size as int),
                self@ == old(self)@.paint(
                    across.union(bar_vertical(cx as int, dy as int, j as int)),
                    color,
                ),
            decreases size - j,
        {
            let y: usize = dy + j;
            let ghost done = across.union(bar_vertical(cx as int, dy as int, j as int));
            proof {
                old(self)@.lemma_paint_insert(done, cx - 1, y as int, color);
                old(self)@.lemma_paint_insert(done.insert((cx - 1, y as int)), cx as int, y as int, color);
                old(self)@.lemma_paint_insert(
                    done.insert((cx - 1, y as int)).insert((cx as int, y as int)),
                    cx + 1,
                    y as int,
                    color,
                );
                assert(done.insert((cx - 1, y as int)).insert((cx as int, y as int)).insert(
                    (cx + 1, y as int),
                ) =~= across.union(bar_vertical(cx as int, dy as int, j + 1)));
            }
            self.set_pixel(cx - 1, y, color);
            self.set_pixel(cx, y, color);
            self.set_pixel(cx + 1, y, color);
            j += 1;
        }
    }
}

} // verus!
