//! The frame buffer and the depth buffer, and the writes that reach them.
//!
//! Logical coordinates have their origin at the bottom-left pixel; the
//! buffers are stored row by row with the top row of the image first.

use vstd::prelude::*;
use vstd::arithmetic::div_mod::{
    lemma_fundamental_div_mod_converse_div,
    lemma_fundamental_div_mod_converse_mod,
};
use crate::color::{packed, Bgra8};
use crate::depth::DEPTH_NEG_INFINITY;

verus! {

/// The buffers of a rasterizer as mathematical sequences, with the shader it
/// was built with.
pub ghost struct RasterView<S> {
    pub width: nat,
    pub height: nat,
    pub frame: Seq<Bgra8>,
    pub depth: Seq<i32>,
    pub shader: S,
}

impl<S> RasterView<S> {
    /// Both buffers hold one entry for each pixel.
    pub open spec fn wf(self) -> bool {
        &&& self.frame.len() == self.width * self.height
        &&& self.depth.len() == self.width * self.height
    }

    /// Whether `(x, y)` is a pixel of the buffers.
    pub open spec fn contains(self, x: int, y: int) -> bool {
        0 <= x < self.width && 0 <= y < self.height
    }

    /// Where the pixel `(x, y)` is stored: rows are flipped, so the top row
    /// of the image comes first.
    pub open spec fn index(self, x: int, y: int) -> int {
        (self.height - 1 - y) * self.width + x
    }

    /// The column of the pixel stored at `i`.
    pub open spec fn column(self, i: int) -> int {
        i % (self.width as int)
    }

    /// The row, counted from the bottom, of the pixel stored at `i`.
    pub open spec fn row(self, i: int) -> int {
        self.height - 1 - i / (self.width as int)
    }

    /// The color of the pixel `(x, y)`.
    pub open spec fn color_at(self, x: int, y: int) -> Bgra8 {
        self.frame[self.index(x, y)]
    }

    /// The depth stored for the pixel `(x, y)`.
    pub open spec fn depth_at(self, x: int, y: int) -> i32 {
        self.depth[self.index(x, y)]
    }

    /// The buffers at the start of a frame: every pixel has the zero color
    /// and the depth of negative infinity.
    pub open spec fn cleared(width: nat, height: nat, shader: S) -> Self {
        RasterView {
            width,
            height,
            frame: Seq::new(width * height, |i: int| Bgra8 { b: 0, g: 0, r: 0, a: 0 }),
            depth: Seq::new(width * height, |i: int| DEPTH_NEG_INFINITY),
            shader,
        }
    }

    /// The buffers after every pixel of `region` that lies inside them has
    /// been given `color`. Pixels of the region outside the buffers are
    /// ignored; depths are untouched.
    pub open spec fn paint(self, region: Set<(int, int)>, color: Bgra8) -> Self {
        RasterView {
            frame: Seq::new(
                self.frame.len(),
                |i: int|
                    if region.contains((self.column(i), self.row(i))) {
                        color
                    } else {
                        self.frame[i]
                    },
            ),
            ..self
        }
    }

    /// Whether a fragment of the given depth at `(x, y)` wins the depth
    /// test: the pixel exists and its stored depth is strictly smaller.
    pub open spec fn passes(self, x: int, y: int, depth: i32) -> bool {
        self.contains(x, y) && self.depth_at(x, y) < depth
    }

    /// The buffers after a depth-tested write: a fragment that wins replaces
    /// both the color and the depth of its pixel, any other changes nothing.
    pub open spec fn shade(self, x: int, y: int, depth: i32, color: Bgra8) -> Self {
        if self.passes(x, y, depth) {
            RasterView {
                frame: self.frame.update(self.index(x, y), color),
                depth: self.depth.update(self.index(x, y), depth),
                ..self
            }
        } else {
            self
        }
    }

    /// The index of a pixel inside the buffers is inside the sequences, and
    /// the pixel is found again from it.
    pub proof fn lemma_index(self, x: int, y: int)
        requires
            self.wf(),
            self.contains(x, y),
        ensures
            0 <= self.index(x, y) < self.width * self.height,
            self.column(self.index(x, y)) == x,
            self.row(self.index(x, y)) == y,
    {
        let w = self.width as int;
        let h = self.height as int;
        let q = h - 1 - y;
        assert(0 <= q * w && q * w + w <= h * w) by (nonlinear_arith)
            requires
                0 <= q <= h - 1,
                0 < w,
        ;
        lemma_fundamental_div_mod_converse_div(q * w + x, w, q, x);
        lemma_fundamental_div_mod_converse_mod(q * w + x, w, q, x);
    }

    /// Every place in the buffers is the index of exactly the pixel at its
    /// column and row.
    pub proof fn lemma_place(self, i: int)
        requires
            self.wf(),
            0 <= i < self.width * self.height,
        ensures
            self.contains(self.column(i), self.row(i)),
            self.index(self.column(i), self.row(i)) == i,
    {
        let w = self.width as int;
        let h = self.height as int;
        assert(w > 0) by (nonlinear_arith)
            requires
                0 <= i < w * h,
                0 <= w,
        ;
        vstd::arithmetic::div_mod::lemma_fundamental_div_mod(i, w);
        vstd::arithmetic::div_mod::lemma_mod_bound(i, w);
        let q = i / w;
        assert(0 <= q < h) by (nonlinear_arith)
            requires
                i == w * q + i % w,
                0 <= i % w < w,
                0 <= i < w * h,
                0 < w,
        ;
        assert((h - 1 - (h - 1 - q)) * w == w * q) by (nonlinear_arith);
    }

    /// After a clear every pixel has the zero color and the depth of
    /// negative infinity.
    pub proof fn lemma_cleared_at(width: nat, height: nat, shader: S, x: int, y: int)
        requires
            0 <= x < width,
            0 <= y < height,
        ensures
            Self::cleared(width, height, shader).wf(),
            Self::cleared(width, height, shader).color_at(x, y) == (Bgra8 { b: 0, g: 0, r: 0, a: 0 }),
            Self::cleared(width, height, shader).depth_at(x, y) == DEPTH_NEG_INFINITY,
            forall|depth: i32|
                depth > DEPTH_NEG_INFINITY ==> Self::cleared(width, height, shader).passes(x, y, depth),
    {
        Self::cleared(width, height, shader).lemma_index(x, y);
    }

    /// Painting leaves a pixel outside the region as it was and gives a
    /// pixel inside it the new color.
    pub proof fn lemma_paint_color_at(self, region: Set<(int, int)>, color: Bgra8, x: int, y: int)
        requires
            self.wf(),
            self.contains(x, y),
        ensures
            self.paint(region, color).color_at(x, y) == if region.contains((x, y)) {
                color
            } else {
                self.color_at(x, y)
            },
    {
        self.lemma_index(x, y);
    }

    /// Painting nothing changes nothing.
    pub proof fn lemma_paint_empty(self, color: Bgra8)
        ensures
            self.paint(Set::empty(), color) == self,
    {
        assert(self.paint(Set::empty(), color).frame =~= self.frame);
    }

    /// Painting one region and then another in the same color paints their
    /// union.
    pub proof fn lemma_paint_union(self, first: Set<(int, int)>, second: Set<(int, int)>, color: Bgra8)
        ensures
            self.paint(first, color).paint(second, color) == self.paint(first.union(second), color),
    {
        assert(self.paint(first, color).paint(second, color).frame =~= self.paint(
            first.union(second),
            color,
        ).frame);
    }

    /// Painting a region and then one more pixel in the same color paints
    /// the region with that pixel added.
    pub proof fn lemma_paint_insert(self, region: Set<(int, int)>, x: int, y: int, color: Bgra8)
        ensures
            self.paint(region, color).paint(set![(x, y)], color) == self.paint(
                region.insert((x, y)),
                color,
            ),
    {
        self.lemma_paint_union(region, set![(x, y)], color);
        assert(region.union(set![(x, y)]) =~= region.insert((x, y)));
    }

    /// Only the pixels inside the buffers count: two regions that hold the
    /// same pixels of the buffers paint alike.
    pub proof fn lemma_paint_same(self, first: Set<(int, int)>, second: Set<(int, int)>, color: Bgra8)
        requires
            self.wf(),
            forall|x: int, y: int|
                self.contains(x, y) ==> (first.contains((x, y)) <==> second.contains((x, y))),
        ensures
            self.paint(first, color) == self.paint(second, color),
    {
        assert forall|i: int| 0 <= i < self.frame.len() implies self.paint(first, color).frame[i]
            == self.paint(second, color).frame[i] by {
            self.lemma_place(i);
        }
        assert(self.paint(first, color).frame =~= self.paint(second, color).frame);
    }

    /// Painting a single pixel of the buffers overwrites its entry.
    pub proof fn lemma_paint_one(self, x: int, y: int, color: Bgra8)
        requires
            self.wf(),
        ensures
            self.contains(x, y) ==> self.paint(set![(x, y)], color).frame == self.frame.update(
                self.index(x, y),
                color,
            ),
            !self.contains(x, y) ==> self.paint(set![(x, y)], color) == self,
    {
        let painted = self.paint(set![(x, y)], color);
        if self.contains(x, y) {
            self.lemma_index(x, y);
            assert forall|i: int| 0 <= i < self.frame.len() implies painted.frame[i]
                == self.frame.update(self.index(x, y), color)[i] by {
                self.lemma_place(i);
            }
            assert(painted.frame =~= self.frame.update(self.index(x, y), color));
        } else {
            assert forall|i: int| 0 <= i < self.frame.len() implies painted.frame[i]
                == self.frame[i] by {
                self.lemma_place(i);
            }
            assert(painted.frame =~= self.frame);
        }
    }
}

/// The pixels of the row `y` from column `lo` up to, but not including,
/// column `hi`.
pub open spec fn span_pixels(lo: int, hi: int, y: int) -> Set<(int, int)> {
    Set::new(|p: (int, int)| p.1 == y && lo <= p.0 < hi)
}

/// A candidate for a pixel: where it falls, how deep it lies and the color
/// that shading gave it.
pub ghost struct Fragment {
    pub x: int,
    pub y: int,
    pub depth: i32,
    pub color: Bgra8,
}

impl Fragment {
    /// Whether the order of two fragments can be told from the buffers: it
    /// cannot, unless they fall on the same pixel at the same depth with
    /// different colors.
    pub open spec fn settles_with(self, other: Fragment) -> bool {
        self.x != other.x || self.y != other.y || self.depth != other.depth || self.color
            == other.color
    }
}

impl<S> RasterView<S> {
    /// The buffers after the depth-tested write of one fragment.
    pub open spec fn shade_fragment(self, f: Fragment) -> Self {
        self.shade(f.x, f.y, f.depth, f.color)
    }

    /// The buffers after the depth-tested writes of the fragments, in the
    /// order of the sequence.
    pub open spec fn shade_all(self, fragments: Seq<Fragment>) -> Self
        decreases fragments.len(),
    {
        if fragments.len() == 0 {
            self
        } else {
            self.shade_all(fragments.drop_last()).shade_fragment(fragments.last())
        }
    }

    /// A depth-tested write keeps the buffers well formed.
    pub proof fn lemma_shade_wf(self, f: Fragment)
        requires
            self.wf(),
        ensures
            self.shade_fragment(f).wf(),
            self.shade_fragment(f).width == self.width,
            self.shade_fragment(f).height == self.height,
    {
        if self.contains(f.x, f.y) {
            self.lemma_index(f.x, f.y);
        }
    }

    /// Any number of depth-tested writes keeps the buffers well formed.
    pub proof fn lemma_shade_all_wf(self, fragments: Seq<Fragment>)
        requires
            self.wf(),
        ensures
            self.shade_all(fragments).wf(),
            self.shade_all(fragments).width == self.width,
            self.shade_all(fragments).height == self.height,
        decreases fragments.len(),
    {
        if fragments.len() > 0 {
            self.lemma_shade_all_wf(fragments.drop_last());
            self.shade_all(fragments.drop_last()).lemma_shade_wf(fragments.last());
        }
    }

    /// After a depth-tested write the pixel holds the larger of the two
    /// depths, and the color that came with it; on a tie the stored color
    /// stays.
    pub proof fn lemma_shade_at(self, f: Fragment)
        requires
            self.wf(),
            self.contains(f.x, f.y),
        ensures
            self.shade_fragment(f).depth_at(f.x, f.y) == if self.depth_at(f.x, f.y) < f.depth {
                f.depth
            } else {
                self.depth_at(f.x, f.y)
            },
            self.shade_fragment(f).color_at(f.x, f.y) == if self.depth_at(f.x, f.y) < f.depth {
                f.color
            } else {
                self.color_at(f.x, f.y)
            },
    {
        self.lemma_index(f.x, f.y);
    }

    /// The nearer of two fragments on one pixel wins, whichever is written
    /// first: the pixel ends with the color of the nearer one, unless what
    /// was stored before was at least as near.
    pub proof fn lemma_nearer_wins(self, near: Fragment, far: Fragment)
        requires
            self.wf(),
            self.contains(near.x, near.y),
            far.x == near.x,
            far.y == near.y,
            far.depth < near.depth,
        ensures
            self.shade_fragment(near).shade_fragment(far) == self.shade_fragment(far).shade_fragment(
                near,
            ),
            self.depth_at(near.x, near.y) < near.depth ==> self.shade_fragment(near).shade_fragment(
                far,
            ).color_at(near.x, near.y) == near.color,
            self.depth_at(near.x, near.y) >= near.depth ==> self.shade_fragment(near).shade_fragment(
                far,
            ) == self,
    {
        self.lemma_index(near.x, near.y);
        self.lemma_shade_swap(near, far);
    }

    /// Two depth-tested writes give the same buffers in either order,
    /// unless the fragments tie on one pixel with different colors.
    pub proof fn lemma_shade_swap(self, f: Fragment, g: Fragment)
        requires
            self.wf(),
            f.settles_with(g),
        ensures
            self.shade_fragment(f).shade_fragment(g) == self.shade_fragment(g).shade_fragment(f),
    {
        let fg = self.shade_fragment(f).shade_fragment(g);
        let gf = self.shade_fragment(g).shade_fragment(f);
        if self.contains(f.x, f.y) {
            self.lemma_index(f.x, f.y);
        }
        if self.contains(g.x, g.y) {
            self.lemma_index(g.x, g.y);
        }
        assert(fg.frame =~= gf.frame);
        assert(fg.depth =~= gf.depth);
    }

    /// A fragment may be written before or after a batch that it settles
    /// with.
    pub proof fn lemma_shade_past(self, f: Fragment, batch: Seq<Fragment>)
        requires
            self.wf(),
            forall|i: int| 0 <= i < batch.len() ==> f.settles_with(#[trigger] batch[i]),
        ensures
            self.shade_fragment(f).shade_all(batch) == self.shade_all(batch).shade_fragment(f),
        decreases batch.len(),
    {
        if batch.len() > 0 {
            let rest = batch.drop_last();
            let g = batch.last();
            self.lemma_shade_past(f, rest);
            self.lemma_shade_all_wf(rest);
            self.shade_all(rest).lemma_shade_swap(f, g);
        }
    }

    /// Depth-tested drawing does not depend on the order of the objects:
    /// two batches of fragments, say of two triangles, give the same
    /// buffers whichever is drawn first, as long as no fragment of one ties
    /// with a fragment of the other on a pixel while differing in color.
    pub proof fn lemma_shade_order(self, first: Seq<Fragment>, second: Seq<Fragment>)
        requires
            self.wf(),
            forall|i: int, j: int|
                0 <= i < first.len() && 0 <= j < second.len() ==> (#[trigger] first[i]).settles_with(
                    #[trigger] second[j],
                ),
        ensures
            self.shade_all(first).shade_all(second) == self.shade_all(second).shade_all(first),
        decreases first.len(),
    {
        if first.len() > 0 {
            let rest = first.drop_last();
            let f = first.last();
            self.lemma_shade_order(rest, second);
            self.lemma_shade_all_wf(rest);
            self.shade_all(rest).lemma_shade_past(f, second);
        }
    }
}

/// A frame buffer and a depth buffer of `width` by `height` pixels, with the
/// shader chosen for them.
pub struct Rasterizer<S> {
    width: usize,
    height: usize,
    frame_buf: Vec<Bgra8>,
    depth_buf: Vec<i32>,
    pub shader: S,
}

impl<S> View for Rasterizer<S> {
    type V = RasterView<S>;

    closed spec fn view(&self) -> RasterView<S> {
        RasterView {
            width: self.width as nat,
            height: self.height as nat,
            frame: self.frame_buf@,
            depth: self.depth_buf@,
            shader: self.shader,
        }
    }
}

impl<S> Rasterizer<S> {
    /// Buffers of `width` by `height` pixels, cleared.
    pub fn new(width: usize, height: usize, shader: S) -> (rst: Self)
        requires
            width * height <= usize::MAX,
        ensures
            rst@ == RasterView::cleared(width as nat, height as nat, shader),
            rst@.wf(),
    {
        let n: usize = width * height;
        let zero = Bgra8 { b: 0, g: 0, r: 0, a: 0 };
        let mut frame_buf: Vec<Bgra8> = Vec::new();
        let mut depth_buf: Vec<i32> = Vec::new();
        let mut i: usize = 0;
        while i < n
            invariant
                i <= n,
                frame_buf@.len() == i,
                depth_buf@.len() == i,
                forall|j: int| 0 <= j < i ==> frame_buf@[j] == zero,
                forall|j: int| 0 <= j < i ==> depth_buf@[j] == DEPTH_NEG_INFINITY,
            decreases n - i,
        {
            frame_buf.push(zero);
            depth_buf.push(DEPTH_NEG_INFINITY);
            i += 1;
        }
        let rst = Rasterizer { width, height, frame_buf, depth_buf, shader };
        proof {
            let cleared = RasterView::cleared(width as nat, height as nat, shader);
            assert(rst@.frame =~= cleared.frame);
            assert(rst@.depth =~= cleared.depth);
        }
        rst
    }

    /// The number of columns. The pixels of well-formed buffers can be
    /// counted in a `usize`.
    pub fn width(&self) -> (w: usize)
        ensures
            w == self@.width,
            self@.wf() ==> self@.width * self@.height <= usize::MAX,
    {
        proof {
            assert(self@.wf() ==> self.width * self.height == self.frame_buf.len());
        }
        self.width
    }

    /// The number of rows.
    pub fn height(&self) -> (h: usize)
        ensures
            h == self@.height,
            self@.wf() ==> self@.width * self@.height <= usize::MAX,
    {
        proof {
            assert(self@.wf() ==> self.width * self.height == self.frame_buf.len());
        }
        self.height
    }

    /// Resets both buffers for the next frame.
    pub fn clear(&mut self)
        requires
            old(self)@.wf(),
        ensures
            final(self)@ == RasterView::cleared(old(self)@.width, old(self)@.height, old(self)@.shader),
            final(self)@.wf(),
    {
        let n: usize = self.frame_buf.len();
        let zero = Bgra8 { b: 0, g: 0, r: 0, a: 0 };
        let mut i: usize = 0;
        while i < n
            invariant
                i <= n,
                self.frame_buf@.len() == n,
                self.depth_buf@.len() == n,
                self.width == old(self).width,
                self.height == old(self).height,
                self.shader == old(self).shader,
                forall|j: int| 0 <= j < i ==> self.frame_buf@[j] == zero,
                forall|j: int| 0 <= j < i ==> self.depth_buf@[j] == DEPTH_NEG_INFINITY,
            decreases n - i,
        {
            self.frame_buf[i] = zero;
            self.depth_buf[i] = DEPTH_NEG_INFINITY;
            i += 1;
        }
        proof {
            let cleared = RasterView::cleared(old(self)@.width, old(self)@.height, old(self)@.shader);
            assert(self@.frame =~= cleared.frame);
            assert(self@.depth =~= cleared.depth);
        }
    }

    /// The frame buffer for a display surface: one packed word for each
    /// pixel, the top row of the image first.
    pub fn data(&self) -> (words: Vec<u32>)
        ensures
            words@.len() == self@.frame.len(),
            forall|i: int| 0 <= i < words@.len() ==> words@[i] as int == packed(#[trigger] self@.frame[i]),
    {
        let n: usize = self.frame_buf.len();
        let mut words: Vec<u32> = Vec::with_capacity(n);
        let mut i: usize = 0;
        while i < n
            invariant
                i <= n,
                n == self.frame_buf@.len(),
                words@.len() == i,
                forall|j: int| 0 <= j < i ==> words@[j] as int == packed(#[trigger] self.frame_buf@[j]),
            decreases n - i,
        {
            words.push(self.frame_buf[i].to_u32());
            i += 1;
        }
        words
    }

    /// Where the pixel `(x, y)` is stored in the buffers.
    pub fn get_index(&self, x: usize, y: usize) -> (index: usize)
        requires
            self@.wf(),
            self@.contains(x as int, y as int),
        ensures
            index as int == self@.index(x as int, y as int),
            index < self@.frame.len(),
    {
        proof {
            self@.lemma_index(x as int, y as int);
            let q = self.height - 1 - y;
            assert(0 <= q * self.width <= self.height * self.width) by (nonlinear_arith)
                requires
                    0 <= q <= self.height,
                    0 <= self.width,
            ;
            assert(self.width * self.height == self.frame_buf.len());
            assert(self.height * self.width == self.width * self.height) by (nonlinear_arith);
        }
        (self.height - 1 - y) * self.width + x
    }

    /// The color of the pixel `(x, y)`, if there is such a pixel.
    pub fn color(&self, x: usize, y: usize) -> (c: Option<Bgra8>)
        requires
            self@.wf(),
        ensures
            c == if self@.contains(x as int, y as int) {
                Some(self@.color_at(x as int, y as int))
            } else {
                None
            },
    {
        if x >= self.width || y >= self.height {
            return None;
        }
        let index = self.get_index(x, y);
        Some(self.frame_buf[index])
    }

    /// The stored depth of the pixel `(x, y)`, if there is such a pixel.
    pub fn depth(&self, x: usize, y: usize) -> (d: Option<i32>)
        requires
            self@.wf(),
        ensures
            d == if self@.contains(x as int, y as int) {
                Some(self@.depth_at(x as int, y as int))
            } else {
                None
            },
    {
        if x >= self.width || y >= self.height {
            return None;
        }
        let index = self.get_index(x, y);
        Some(self.depth_buf[index])
    }

    /// Gives the pixel `(x, y)` a color, whatever its depth. A pixel outside
    /// the buffers is ignored.
    pub fn set_pixel(&mut self, x: usize, y: usize, color: Bgra8)
        requires
            old(self)@.wf(),
        ensures
            final(self)@ == old(self)@.paint(set![(x as int, y as int)], color),
            final(self)@.wf(),
    {
        proof {
            self@.lemma_paint_one(x as int, y as int, color);
        }
        if x >= self.width || y >= self.height {
            return ;
        }
        let index = self.get_index(x, y);
        self.frame_buf[index] = color;
    }

    /// Gives the pixel `(x, y)` a color, for coordinates that may be
    /// negative. A pixel outside the buffers, on either side, is ignored.
    pub fn plot(&mut self, x: i64, y: i64, color: Bgra8)
        requires
            old(self)@.wf(),
        ensures
            final(self)@ == old(self)@.paint(set![(x as int, y as int)], color),
            final(self)@.wf(),
    {
        if x < 0 || y < 0 || x as u64 >= self.width() as u64 || y as u64 >= self.height() as u64 {
            proof {
                self@.lemma_paint_one(x as int, y as int, color);
            }
            return ;
        }
        self.set_pixel(x as usize, y as usize, color);
    }

    /// Gives the pixels from column `lo` up to, but not including, column
    /// `hi` of the row `y` a color. The part of the span outside the buffers
    /// is ignored.
    pub fn fill_span(&mut self, y: usize, lo: usize, hi: usize, color: Bgra8)
        requires
            old(self)@.wf(),
        ensures
            final(self)@ == old(self)@.paint(span_pixels(lo as int, hi as int, y as int), color),
            final(self)@.wf(),
    {
        proof {
            self@.lemma_paint_empty(color);
            self@.lemma_paint_same(span_pixels(lo as int, lo as int, y as int), Set::empty(), color);
        }
        if y >= self.height {
            proof {
                self@.lemma_paint_same(span_pixels(lo as int, hi as int, y as int), Set::empty(), color);
            }
            return ;
        }
        let end: usize = if hi < self.width { hi } else { self.width };
        let mut x: usize = lo;
        while x < end
            invariant
                self@.wf(),
                lo <= x,
                x == lo || x <= end,
                end == if hi < self.width { hi } else { self.width },
                y < self.height,
                self.width == old(self).width,
                self.height == old(self).height,
                self@ == old(self)@.paint(span_pixels(lo as int, x as int, y as int), color),
            decreases end - x,
        {
            proof {
                old(self)@.lemma_paint_insert(
                    span_pixels(lo as int, x as int, y as int),
                    x as int,
                    y as int,
                    color,
                );
                assert(span_pixels(lo as int, x as int, y as int).insert((x as int, y as int))
                    =~= span_pixels(lo as int, x + 1, y as int));
            }
            self.set_pixel(x, y, color);
            x += 1;
        }
        proof {
            old(self)@.lemma_paint_same(
                span_pixels(lo as int, x as int, y as int),
                span_pixels(lo as int, hi as int, y as int),
                color,
            );
        }
    }

    /// Holds the bounding box of a triangle to the buffers: every bound
    /// past the last column or row becomes that column or row. The bounds
    /// are given, and come back, in the order left, top, right, bottom.
    pub fn clamp_box(&self, left: usize, top: usize, right: usize, bottom: usize) -> (held: (
        usize,
        usize,
        usize,
        usize,
    ))
        requires
            self@.width > 0,
            self@.height > 0,
        ensures
            held.0 == if left < self@.width { left as int } else { self@.width - 1 },
            held.1 == if top < self@.height { top as int } else { self@.height - 1 },
            held.2 == if right < self@.width { right as int } else { self@.width - 1 },
            held.3 == if bottom < self@.height { bottom as int } else { self@.height - 1 },
    {
        let last_column: usize = self.width - 1;
        let last_row: usize = self.height - 1;
        (
            if left < self.width { left } else { last_column },
            if top < self.height { top } else { last_row },
            if right < self.width { right } else { last_column },
            if bottom < self.height { bottom } else { last_row },
        )
    }

    /// Whether a fragment of the given depth at `(x, y)` would be written:
    /// it must lie strictly above the depth stored for its pixel.
    pub fn depth_test(&self, x: usize, y: usize, depth: i32) -> (pass: bool)
        requires
            self@.wf(),
        ensures
            pass == self@.passes(x as int, y as int, depth),
    {
        if x >= self.width || y >= self.height {
            return false;
        }
        let index = self.get_index(x, y);
        self.depth_buf[index] < depth
    }

    /// The depth-tested write: the fragment replaces the color and the depth
    /// of its pixel if it passes the depth test, and has no effect otherwise.
    pub fn write_fragment(&mut self, x: usize, y: usize, depth: i32, color: Bgra8) -> (written: bool)
        requires
            old(self)@.wf(),
        ensures
            written == old(self)@.passes(x as int, y as int, depth),
            final(self)@ == old(self)@.shade(x as int, y as int, depth, color),
            final(self)@.wf(),
    {
        if x >= self.width || y >= self.height {
            return false;
        }
        let index = self.get_index(x, y);
        if self.depth_buf[index] < depth {
            self.depth_buf[index] = depth;
            self.frame_buf[index] = color;
            true
        } else {
            false
        }
    }
}

} // verus!
