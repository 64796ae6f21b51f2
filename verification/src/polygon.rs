//! Polygon fill by scanlines with an active edge table.
//!
//! A polygon is given by its vertices in order; each vertex is joined to
//! the next and the last to the first. A pixel is filled by the even-odd
//! rule, taken on the scanline through it: an odd number of edges cross the
//! scanline at or to the left of the pixel, and none crosses strictly
//! between the pixel and its right neighbour. An edge crosses the scanlines
//! from its lower end up to, but not including, its upper end, so a
//! horizontal edge crosses none.

use vstd::prelude::*;
use vstd::arithmetic::div_mod::{lemma_fundamental_div_mod, lemma_fundamental_div_mod_converse_div, lemma_mod_bound};
use crate::color::Bgra8;
use crate::rasterizer::{span_pixels, Rasterizer};

verus! {

/// The `i`-th vertex, counted cyclically: after the last comes the first.
pub open spec fn vertex(vs: Seq<(i32, i32)>, i: int) -> (int, int) {
    let p = vs[i % (vs.len() as int)];
    (p.0 as int, p.1 as int)
}

/// The lower end of the edge from vertex `i` to the next.
pub open spec fn edge_low(vs: Seq<(i32, i32)>, i: int) -> (int, int) {
    let p = vertex(vs, i);
    let q = vertex(vs, i + 1);
    if p.1 <= q.1 {
        p
    } else {
        q
    }
}

/// The upper end of the edge from vertex `i` to the next.
pub open spec fn edge_high(vs: Seq<(i32, i32)>, i: int) -> (int, int) {
    let p = vertex(vs, i);
    let q = vertex(vs, i + 1);
    if p.1 <= q.1 {
        q
    } else {
        p
    }
}

/// How far the edge rises from its lower to its upper end.
pub open spec fn edge_rise(vs: Seq<(i32, i32)>, i: int) -> int {
    edge_high(vs, i).1 - edge_low(vs, i).1
}

/// How far the edge runs to the right from its lower to its upper end.
pub open spec fn edge_run(vs: Seq<(i32, i32)>, i: int) -> int {
    edge_high(vs, i).0 - edge_low(vs, i).0
}

/// Whether the edge crosses the scanline `y`.
pub open spec fn edge_crosses(vs: Seq<(i32, i32)>, i: int, y: int) -> bool {
    edge_low(vs, i).1 <= y < edge_high(vs, i).1
}

/// Where the edge crosses the scanline `y`, as a fraction over the rise of
/// the edge: the crossing lies at `crossing_num / edge_rise`.
pub open spec fn crossing_num(vs: Seq<(i32, i32)>, i: int, y: int) -> int {
    edge_low(vs, i).0 * edge_rise(vs, i) + (y - edge_low(vs, i).1) * edge_run(vs, i)
}

/// The edges that cross the scanline `y`.
pub open spec fn crossings(vs: Seq<(i32, i32)>, y: int) -> Set<int> {
    Set::new(|i: int| 0 <= i < vs.len() && edge_crosses(vs, i, y))
}

/// The edges that cross the scanline `y` at or to the left of `x`.
pub open spec fn crossings_left(vs: Seq<(i32, i32)>, x: int, y: int) -> Set<int> {
    Set::new(
        |i: int|
            0 <= i < vs.len() && edge_crosses(vs, i, y) && crossing_num(vs, i, y) <= x * edge_rise(
                vs,
                i,
            ),
    )
}

/// Whether the edge crosses the scanline `y` strictly between `x` and
/// `x + 1`.
pub open spec fn crosses_between(vs: Seq<(i32, i32)>, i: int, x: int, y: int) -> bool {
    &&& edge_crosses(vs, i, y)
    &&& x * edge_rise(vs, i) < crossing_num(vs, i, y)
    &&& crossing_num(vs, i, y) < (x + 1) * edge_rise(vs, i)
}

/// Whether the pixel `(x, y)` is filled.
pub open spec fn inside(vs: Seq<(i32, i32)>, x: int, y: int) -> bool {
    &&& crossings_left(vs, x, y).len() % 2 == 1
    &&& forall|i: int| 0 <= i < vs.len() ==> !#[trigger] crosses_between(vs, i, x, y)
}

/// The pixels that filling the polygon paints.
pub open spec fn polygon_pixels(vs: Seq<(i32, i32)>) -> Set<(int, int)> {
    Set::new(|p: (int, int)| inside(vs, p.0, p.1))
}

/// The filled pixels of the scanlines from `bottom` up to, but not
/// including, `top`.
spec fn polygon_rows(vs: Seq<(i32, i32)>, bottom: int, top: int) -> Set<(int, int)> {
    Set::new(|p: (int, int)| bottom <= p.1 < top && inside(vs, p.0, p.1))
}

/// `n / d` rounded up.
spec fn ceil_div(n: int, d: int) -> int {
    -((-n) / d)
}

/// An integer times the divisor is at most `n` exactly when the integer is
/// at most `n / d`, and at least `n` exactly when it is at least `n / d`
/// rounded up.
proof fn lemma_floor_ceil(n: int, d: int, z: int)
    requires
        0 < d,
    ensures
        z * d <= n <==> z <= n / d,
        n <= z * d <==> ceil_div(n, d) <= z,
{
    lemma_fundamental_div_mod(n, d);
    lemma_mod_bound(n, d);
    let q = n / d;
    let r = n % d;
    assert(z * d <= n <==> z <= q) by (nonlinear_arith)
        requires
            n == d * q + r,
            0 <= r < d,
    ;
    lemma_fundamental_div_mod(-n, d);
    lemma_mod_bound(-n, d);
    let q2 = (-n) / d;
    let r2 = (-n) % d;
    assert(n <= z * d <==> -q2 <= z) by (nonlinear_arith)
        requires
            -n == d * q2 + r2,
            0 <= r2 < d,
    ;
}

/// `n / d` rounded down.
fn floor_div(n: i128, d: i128) -> (q: i128)
    requires
        0 < d,
        -0x1_0000_0000_0000_0000_0000 <= n <= 0x1_0000_0000_0000_0000_0000,
    ensures
        q == n / d,
        -0x1_0000_0000_0000_0000_0001 <= q <= 0x1_0000_0000_0000_0000_0000,
{
    if n >= 0 {
        proof {
            lemma_fundamental_div_mod(n as int, d as int);
            lemma_mod_bound(n as int, d as int);
            assert(0 <= n / d <= n) by (nonlinear_arith)
                requires
                    n == d * (n / d) + n % d,
                    0 <= n % d < d,
                    0 <= n,
            ;
        }
        n / d
    } else {
        let m: i128 = -n;
        let q: i128 = m / d;
        let r: i128 = m % d;
        proof {
            lemma_fundamental_div_mod(m as int, d as int);
            lemma_mod_bound(m as int, d as int);
            assert(0 <= q <= m) by (nonlinear_arith)
                requires
                    m == d * q + r,
                    0 <= r < d,
                    0 <= m,
            ;
            if r == 0 {
                assert(n == (-q) * d + 0) by (nonlinear_arith)
                    requires
                        m == d * q + r,
                        r == 0,
                        n == -m,
                ;
                lemma_fundamental_div_mod_converse_div(n as int, d as int, -q, 0);
            } else {
                assert(n == (-q - 1) * d + (d - r)) by (nonlinear_arith)
                    requires
                        m == d * q + r,
                        n == -m,
                ;
                lemma_fundamental_div_mod_converse_div(n as int, d as int, -q - 1, d - r);
            }
        }
        if r == 0 {
            -q
        } else {
            -q - 1
        }
    }
}

/// An edge in the active table: the fraction `num / dy` at which it crosses
/// the current scanline, the step `dx` by which `num` grows from one
/// scanline to the next, and the scanline at which the edge ends.
#[derive(Clone, Copy)]
struct Active {
    num: i128,
    dx: i64,
    dy: i64,
    y_max: i64,
}

/// The numbers of an active edge are small enough to be compared without
/// overflow.
spec fn active_ok(a: Active) -> bool {
    &&& 0 < a.dy <= 0x1_0000_0000
    &&& -0x1_0000_0000 <= a.dx <= 0x1_0000_0000
    &&& -0x8_0000_0000_0000_0000 <= a.num <= 0x8_0000_0000_0000_0000
}

spec fn all_ok(s: Seq<Active>) -> bool {
    forall|j: int| 0 <= j < s.len() ==> active_ok(#[trigger] s[j])
}

/// The crossing of `a` is not to the right of that of `b`.
spec fn pos_le(a: Active, b: Active) -> bool {
    a.num * b.dy <= b.num * a.dy
}

/// The order of the active table: by crossing, and where two edges cross
/// at the same place, by slope, so that they stay in order on the next
/// scanline.
spec fn precedes(a: Active, b: Active) -> bool {
    a.num * b.dy < b.num * a.dy || (a.num * b.dy == b.num * a.dy && a.dx * b.dy < b.dx * a.dy)
}

spec fn sorted(s: Seq<Active>) -> bool {
    forall|j: int, k: int| 0 <= j < k < s.len() ==> pos_le(#[trigger] s[j], #[trigger] s[k])
}

proof fn lemma_pos_le_transitive(a: Active, b: Active, c: Active)
    requires
        a.dy > 0,
        b.dy > 0,
        c.dy > 0,
        pos_le(a, b),
        pos_le(b, c),
    ensures
        pos_le(a, c),
{
    let (an, ad) = (a.num as int, a.dy as int);
    let (bn, bd) = (b.num as int, b.dy as int);
    let (cn, cd) = (c.num as int, c.dy as int);
    assert((an * bd) * cd <= (bn * ad) * cd) by (nonlinear_arith)
        requires
            an * bd <= bn * ad,
            cd > 0,
    ;
    assert((bn * cd) * ad <= (cn * bd) * ad) by (nonlinear_arith)
        requires
            bn * cd <= cn * bd,
            ad > 0,
    ;
    assert((bn * ad) * cd == (bn * cd) * ad) by (nonlinear_arith);
    assert((an * bd) * cd == (an * cd) * bd) by (nonlinear_arith);
    assert((cn * bd) * ad == (cn * ad) * bd) by (nonlinear_arith);
    assert(an * cd <= cn * ad) by (nonlinear_arith)
        requires
            (an * cd) * bd <= (cn * ad) * bd,
            bd > 0,
    ;
}

fn active_precedes(a: &Active, b: &Active) -> (r: bool)
    requires
        active_ok(*a),
        active_ok(*b),
    ensures
        r == precedes(*a, *b),
{
    proof {
        lemma_product_bound(a.num as int, b.dy as int);
        lemma_product_bound(b.num as int, a.dy as int);
        lemma_product_bound(a.dx as int, b.dy as int);
        lemma_product_bound(b.dx as int, a.dy as int);
    }
    let left: i128 = a.num * (b.dy as i128);
    let right: i128 = b.num * (a.dy as i128);
    if left < right {
        true
    } else if left == right {
        (a.dx as i128) * (b.dy as i128) < (b.dx as i128) * (a.dy as i128)
    } else {
        false
    }
}

proof fn lemma_product_bound(n: int, d: int)
    requires
        -0x8_0000_0000_0000_0000 <= n <= 0x8_0000_0000_0000_0000,
        0 <= d <= 0x1_0000_0000,
    ensures
        -0x8_0000_0000_0000_0000_0000_0000 <= n * d <= 0x8_0000_0000_0000_0000_0000_0000,
{
    assert(-0x8_0000_0000_0000_0000 * 0x1_0000_0000 <= n * d <= 0x8_0000_0000_0000_0000
        * 0x1_0000_0000) by (nonlinear_arith)
        requires
            -0x8_0000_0000_0000_0000 <= n <= 0x8_0000_0000_0000_0000,
            0 <= d <= 0x1_0000_0000,
    ;
}

/// Puts an edge into the sorted active table, behind the edges that it
/// does not precede.
fn insert_sorted(aet: &mut Vec<Active>, e: Active) -> (p: usize)
    requires
        all_ok(old(aet)@),
        active_ok(e),
        sorted(old(aet)@),
    ensures
        p <= old(aet)@.len(),
        final(aet)@ == old(aet)@.insert(p as int, e),
        sorted(final(aet)@),
        all_ok(final(aet)@),
{
    let mut p: usize = aet.len();
    while p > 0 && active_precedes(&e, &aet[p - 1])
        invariant
            p <= aet@.len(),
            aet@ == old(aet)@,
            all_ok(aet@),
            active_ok(e),
            forall|k: int| p <= k < aet@.len() ==> pos_le(e, #[trigger] aet@[k]),
        decreases p,
    {
        p -= 1;
    }
    proof {
        let s = aet@;
        let t = s.insert(p as int, e);
        assert forall|j: int, k: int| 0 <= j < k < t.len() implies pos_le(
            #[trigger] t[j],
            #[trigger] t[k],
        ) by {
            if k < p {
                assert(t[j] == s[j] && t[k] == s[k]);
            } else if k == p {
                assert(t[j] == s[j]);
                assert(pos_le(s[p - 1], e));
                if j < p - 1 {
                    assert(pos_le(s[j], s[p - 1]));
                    lemma_pos_le_transitive(s[j], s[p - 1], e);
                }
            } else if j < p {
                assert(t[j] == s[j] && t[k] == s[k - 1]);
                if k - 1 == j {
                } else {
                    assert(pos_le(s[j], s[k - 1]));
                }
            } else if j == p {
                assert(t[k] == s[k - 1]);
            } else {
                assert(t[j] == s[j - 1] && t[k] == s[k - 1]);
            }
        }
        assert forall|j: int| 0 <= j < t.len() implies active_ok(#[trigger] t[j]) by {
            if j < p {
                assert(t[j] == s[j]);
            } else if j > p {
                assert(t[j] == s[j - 1]);
            }
        }
    }
    aet.insert(p, e);
    p
}

/// Whether `x` lies in the span between the `m`-th pair of a sorted active
/// table: at or right of the crossing of the first edge of the pair, and a
/// whole pixel left of the crossing of the second.
spec fn in_pair(aet: Seq<Active>, m: int, x: int) -> bool {
    &&& 0 <= m
    &&& 2 * m + 1 < aet.len()
    &&& aet[2 * m].num <= x * aet[2 * m].dy
    &&& (x + 1) * aet[2 * m + 1].dy <= aet[2 * m + 1].num
}

/// The spans between the first `pairs` pairs of the active table, on the
/// scanline `y`.
spec fn pair_spans(aet: Seq<Active>, y: int, pairs: int) -> Set<(int, int)> {
    Set::new(|p: (int, int)| p.1 == y && exists|m: int| m < pairs && #[trigger] in_pair(aet, m, p.0))
}

/// Fills the spans between consecutive pairs of a sorted active table on
/// the scanline `y`.
fn fill_pairs<S>(rst: &mut Rasterizer<S>, y: usize, aet: &Vec<Active>, color: Bgra8)
    requires
        old(rst)@.wf(),
        all_ok(aet@),
    ensures
        final(rst)@ == old(rst)@.paint(pair_spans(aet@, y as int, aet@.len() as int), color),
        final(rst)@.wf(),
{
    let width: usize = rst.width();
    let n: usize = aet.len();
    let mut m: usize = 0;
    proof {
        old(rst)@.lemma_paint_empty(color);
        assert(pair_spans(aet@, y as int, 0) =~= Set::<(int, int)>::empty());
    }
    while m < n / 2
        invariant
            rst@.wf(),
            all_ok(aet@),
            n == aet@.len(),
            m <= n / 2,
            width == rst@.width,
            rst@.width == old(rst)@.width,
            rst@.height == old(rst)@.height,
            rst@ == old(rst)@.paint(pair_spans(aet@, y as int, m as int), color),
        decreases n / 2 - m,
    {
        let a: Active = aet[2 * m];
        let b: Active = aet[2 * m + 1];
        let lo: i128 = -floor_div(-a.num, a.dy as i128);
        let hi: i128 = floor_div(b.num, b.dy as i128);
        let lo_c: i128 = if lo < 0 { 0 } else { lo };
        let hi_c: i128 = if hi > width as i128 { width as i128 } else { hi };
        let ghost done = pair_spans(aet@, y as int, m as int);
        let ghost next = pair_spans(aet@, y as int, m + 1);
        let ghost before = rst@;
        if lo_c < hi_c {
            rst.fill_span(y, lo_c as usize, hi_c as usize, color);
        } else {
            proof {
                rst@.lemma_paint_empty(color);
                rst@.lemma_paint_same(span_pixels(lo_c as int, hi_c as int, y as int), Set::empty(), color);
            }
        }
        proof {
            let span = span_pixels(lo_c as int, hi_c as int, y as int);
            assert(rst@ == before.paint(span, color));
            old(rst)@.lemma_paint_union(done, span, color);
            assert forall|px: int, py: int| old(rst)@.contains(px, py) implies (done.union(
                span,
            ).contains((px, py)) <==> next.contains((px, py))) by {
                lemma_floor_ceil(a.num as int, a.dy as int, px);
                lemma_floor_ceil(b.num as int, b.dy as int, px + 1);
                assert(lo == ceil_div(a.num as int, a.dy as int));
                if py == y {
                    assert(in_pair(aet@, m as int, px) <==> (lo <= px && px + 1 <= hi));
                    assert(span.contains((px, py)) <==> in_pair(aet@, m as int, px));
                    if next.contains((px, py)) {
                        let w = choose|w: int| w < m + 1 && #[trigger] in_pair(aet@, w, px);
                        if w < m {
                            assert(done.contains((px, py)));
                        }
                    }
                    if done.contains((px, py)) {
                        let w = choose|w: int| w < m && #[trigger] in_pair(aet@, w, px);
                        assert(in_pair(aet@, w, px));
                    }
                }
            }
            old(rst)@.lemma_paint_same(done.union(span), next, color);
        }
        m += 1;
    }
    proof {
        let half = pair_spans(aet@, y as int, (n / 2) as int);
        let all = pair_spans(aet@, y as int, n as int);
        assert forall|px: int, py: int| half.contains((px, py)) <==> all.contains((px, py)) by {
            if all.contains((px, py)) {
                let w = choose|w: int| w < n && #[trigger] in_pair(aet@, w, px);
                assert(w < n / 2);
            }
            if half.contains((px, py)) {
                let w = choose|w: int| w < n / 2 && #[trigger] in_pair(aet@, w, px);
                assert(in_pair(aet@, w, px));
            }
        }
        assert(half =~= all);
    }
}

/// What inserting a value into a sequence of distinct values does to its
/// members.
proof fn lemma_insert_members(s: Seq<int>, p: int, v: int)
    requires
        0 <= p <= s.len(),
    ensures
        forall|u: int| s.insert(p, v).contains(u) <==> (u == v || s.contains(u)),
        s.no_duplicates() && !s.contains(v) ==> s.insert(p, v).no_duplicates(),
{
    let t = s.insert(p, v);
    assert forall|u: int| t.contains(u) <==> (u == v || s.contains(u)) by {
        if t.contains(u) {
            let j = choose|j: int| 0 <= j < t.len() && t[j] == u;
            if j < p {
                assert(s[j] == u);
            } else if j > p {
                assert(s[j - 1] == u);
            }
        }
        if u == v {
            assert(t[p] == u);
        }
        if s.contains(u) {
            let j = choose|j: int| 0 <= j < s.len() && s[j] == u;
            if j < p {
                assert(t[j] == u);
            } else {
                assert(t[j + 1] == u);
            }
        }
    }
    if s.no_duplicates() && !s.contains(v) {
        assert forall|j: int, k: int| 0 <= j < t.len() && 0 <= k < t.len() && j != k implies t[j]
            != t[k] by {
            let a = if j < p { j } else { j - 1 };
            let b = if k < p { k } else { k - 1 };
            if j != p && k != p {
                assert(t[j] == s[a] && t[k] == s[b]);
            } else if j == p {
                assert(t[k] == s[b]);
                assert(s.contains(s[b]));
            } else {
                assert(t[j] == s[a]);
                assert(s.contains(s[a]));
            }
        }
    }
}

/// What dropping the last value of a sequence of distinct values does to
/// its members.
proof fn lemma_drop_last_members(s: Seq<int>)
    requires
        s.len() > 0,
        s.no_duplicates(),
    ensures
        forall|u: int| s.drop_last().contains(u) <==> (u != s.last() && s.contains(u)),
        s.drop_last().no_duplicates(),
{
    let t = s.drop_last();
    assert forall|u: int| t.contains(u) <==> (u != s.last() && s.contains(u)) by {
        if t.contains(u) {
            let j = choose|j: int| 0 <= j < t.len() && t[j] == u;
            assert(s[j] == u);
        }
        if u != s.last() && s.contains(u) {
            let j = choose|j: int| 0 <= j < s.len() && s[j] == u;
            assert(t[j] == u);
        }
    }
}

/// An edge waiting in the edge table: its lower end, the scanline of its
/// upper end, and its run and rise.
#[derive(Clone, Copy)]
struct Edge {
    x: i64,
    y_min: i64,
    y_max: i64,
    dx: i64,
    dy: i64,
}

/// The edge table holds the edges `pend` of the polygon, each once and none
/// of them horizontal.
spec fn pending_tracks(vs: Seq<(i32, i32)>, table: Seq<Edge>, pend: Seq<int>) -> bool {
    &&& table.len() == pend.len()
    &&& pend.no_duplicates()
    &&& forall|j: int|
        0 <= j < pend.len() ==> {
            let e = #[trigger] pend[j];
            &&& 0 <= e < vs.len()
            &&& edge_rise(vs, e) > 0
            &&& table[j].x == edge_low(vs, e).0
            &&& table[j].y_min == edge_low(vs, e).1
            &&& table[j].y_max == edge_high(vs, e).1
            &&& table[j].dx == edge_run(vs, e)
            &&& table[j].dy == edge_rise(vs, e)
        }
}

/// The edge table is in descending order of the scanline at which an edge
/// starts, so that the next edge to start is the last.
spec fn descending(table: Seq<Edge>) -> bool {
    forall|j: int, k: int| 0 <= j < k < table.len() ==> (#[trigger] table[j]).y_min >= (
    #[trigger] table[k]).y_min
}

/// The active table holds the edges `act` of the polygon, each once, with
/// their crossings of the scanline `y`.
spec fn tracks(vs: Seq<(i32, i32)>, y: int, aet: Seq<Active>, act: Seq<int>) -> bool {
    &&& aet.len() == act.len()
    &&& act.no_duplicates()
    &&& forall|j: int|
        0 <= j < act.len() ==> {
            let e = #[trigger] act[j];
            &&& 0 <= e < vs.len()
            &&& edge_rise(vs, e) > 0
            &&& aet[j].num == crossing_num(vs, e, y)
            &&& aet[j].dx == edge_run(vs, e)
            &&& aet[j].dy == edge_rise(vs, e)
            &&& aet[j].y_max == edge_high(vs, e).1
        }
}

/// Every edge that ends above the scanline `y` is in one of the tables.
spec fn covers(vs: Seq<(i32, i32)>, y: int, act: Seq<int>, pend: Seq<int>) -> bool {
    forall|e: int|
        0 <= e < vs.len() && edge_rise(vs, e) > 0 && #[trigger] edge_high(vs, e).1 > y ==> act.contains(e)
            || pend.contains(e)
}

/// The crossing of an edge with a scanline between its ends is a small
/// number.
proof fn lemma_crossing_bound(vs: Seq<(i32, i32)>, e: int, y: int)
    requires
        vs.len() > 0,
        edge_low(vs, e).1 <= y <= edge_high(vs, e).1,
    ensures
        -0x2_0000_0000_0000_0000 <= crossing_num(vs, e, y) <= 0x2_0000_0000_0000_0000,
        0 <= edge_rise(vs, e) <= 0xffff_ffff,
        -0xffff_ffff <= edge_run(vs, e) <= 0xffff_ffff,
        -0x8000_0000 <= edge_low(vs, e).0 <= 0x7fff_ffff,
        -0x8000_0000 <= edge_low(vs, e).1 <= 0x7fff_ffff,
        -0x8000_0000 <= edge_high(vs, e).1 <= 0x7fff_ffff,
{
    let x = edge_low(vs, e).0;
    let rise = edge_rise(vs, e);
    let run = edge_run(vs, e);
    let t = y - edge_low(vs, e).1;
    assert(-0x8000_0000 * 0xffff_ffff <= x * rise <= 0x8000_0000 * 0xffff_ffff) by (nonlinear_arith)
        requires
            -0x8000_0000 <= x <= 0x8000_0000,
            0 <= rise <= 0xffff_ffff,
    ;
    assert(-0xffff_ffff * 0xffff_ffff <= t * run <= 0xffff_ffff * 0xffff_ffff) by (nonlinear_arith)
        requires
            0 <= t <= 0xffff_ffff,
            -0xffff_ffff <= run <= 0xffff_ffff,
    ;
}

/// From one scanline to the next a crossing moves by the run of its edge.
proof fn lemma_crossing_step(vs: Seq<(i32, i32)>, e: int, y: int)
    ensures
        crossing_num(vs, e, y + 1) == crossing_num(vs, e, y) + edge_run(vs, e),
{
    let t = y - edge_low(vs, e).1;
    let run = edge_run(vs, e);
    assert((t + 1) * run == t * run + run) by (nonlinear_arith);
}

/// Puts an edge into the edge table, keeping the table in descending order
/// of the starting scanline and, among edges that start together, of the
/// starting column.
fn insert_pending(table: &mut Vec<Edge>, e: Edge) -> (p: usize)
    requires
        descending(old(table)@),
    ensures
        p <= old(table)@.len(),
        final(table)@ == old(table)@.insert(p as int, e),
        descending(final(table)@),
{
    let mut p: usize = table.len();
    while p > 0 && (table[p - 1].y_min < e.y_min || (table[p - 1].y_min == e.y_min && table[p - 1].x
        < e.x))
        invariant
            p <= table@.len(),
            table@ == old(table)@,
            forall|k: int| p <= k < table@.len() ==> (#[trigger] table@[k]).y_min <= e.y_min,
        decreases p,
    {
        p -= 1;
    }
    proof {
        let s = table@;
        let t = s.insert(p as int, e);
        assert forall|j: int, k: int| 0 <= j < k < t.len() implies (#[trigger] t[j]).y_min >= (
        #[trigger] t[k]).y_min by {
            if k < p {
                assert(t[j] == s[j] && t[k] == s[k]);
            } else if k == p {
                assert(t[j] == s[j]);
                if j < p - 1 {
                    assert(s[j].y_min >= s[p - 1].y_min);
                }
            } else if j < p {
                assert(t[j] == s[j] && t[k] == s[k - 1]);
                if k - 1 > j {
                    assert(s[j].y_min >= s[k - 1].y_min);
                }
            } else if j == p {
                assert(t[k] == s[k - 1]);
            } else {
                assert(t[j] == s[j - 1] && t[k] == s[k - 1]);
            }
        }
    }
    table.insert(p, e);
    p
}

/// The edge table of a polygon: its edges, the horizontal ones left out,
/// in descending order of the scanline at which they start.
fn build_table(vertices: &[(i32, i32)]) -> (r: (Vec<Edge>, Ghost<Seq<int>>))
    requires
        vertices@.len() >= 1,
    ensures
        pending_tracks(vertices@, r.0@, r.1@),
        descending(r.0@),
        forall|e: int|
            0 <= e < vertices@.len() && #[trigger] edge_rise(vertices@, e) > 0 ==> r.1@.contains(e),
{
    let n: usize = vertices.len();
    let ghost vs = vertices@;
    let mut table: Vec<Edge> = Vec::new();
    let ghost mut pend: Seq<int> = Seq::empty();
    let mut i: usize = 0;
    while i < n
        invariant
            n == vs.len(),
            vs == vertices@,
            n >= 1,
            i <= n,
            pending_tracks(vs, table@, pend),
            descending(table@),
            forall|j: int| 0 <= j < pend.len() ==> #[trigger] pend[j] < i,
            forall|e: int| 0 <= e < i && #[trigger] edge_rise(vs, e) > 0 ==> pend.contains(e),
        decreases n - i,
    {
        let next: usize = if i + 1 == n { 0 } else { i + 1 };
        let p: (i32, i32) = vertices[i];
        let q: (i32, i32) = vertices[next];
        proof {
            vstd::arithmetic::div_mod::lemma_small_mod(i as nat, n as nat);
            if i + 1 == n {
                vstd::arithmetic::div_mod::lemma_mod_self_0(n as int);
            } else {
                vstd::arithmetic::div_mod::lemma_small_mod((i + 1) as nat, n as nat);
            }
            assert(vertex(vs, i as int) == (p.0 as int, p.1 as int));
            assert(vertex(vs, i + 1) == (q.0 as int, q.1 as int));
        }
        if p.1 != q.1 {
            let (low, high): ((i32, i32), (i32, i32)) = if p.1 < q.1 { (p, q) } else { (q, p) };
            let e = Edge {
                x: low.0 as i64,
                y_min: low.1 as i64,
                y_max: high.1 as i64,
                dx: high.0 as i64 - low.0 as i64,
                dy: high.1 as i64 - low.1 as i64,
            };
            let ghost old_table = table@;
            let ghost old_pend = pend;
            let pos = insert_pending(&mut table, e);
            proof {
                pend = old_pend.insert(pos as int, i as int);
                lemma_insert_members(old_pend, pos as int, i as int);
                assert(!old_pend.contains(i as int)) by {
                    if old_pend.contains(i as int) {
                        let j = choose|j: int| 0 <= j < old_pend.len() && old_pend[j] == i as int;
                        assert(old_pend[j] < i);
                    }
                }
                assert forall|j: int| 0 <= j < pend.len() implies {
                    let e = #[trigger] pend[j];
                    &&& e < i + 1
                    &&& 0 <= e < vs.len()
                    &&& edge_rise(vs, e) > 0
                    &&& table@[j].x == edge_low(vs, e).0
                    &&& table@[j].y_min == edge_low(vs, e).1
                    &&& table@[j].y_max == edge_high(vs, e).1
                    &&& table@[j].dx == edge_run(vs, e)
                    &&& table@[j].dy == edge_rise(vs, e)
                } by {
                    if j < pos {
                        assert(pend[j] == old_pend[j] && table@[j] == old_table[j]);
                    } else if j > pos {
                        assert(pend[j] == old_pend[j - 1] && table@[j] == old_table[j - 1]);
                    }
                }
            }
        }
        i += 1;
    }
    (table, Ghost(pend))
}

/// Whether the `i`-th vertex lies on or below the scanline `y`.
spec fn below(vs: Seq<(i32, i32)>, i: int, y: int) -> bool {
    vertex(vs, i).1 <= y
}

/// The edges before the `k`-th that cross the scanline `y`.
spec fn crossings_upto(vs: Seq<(i32, i32)>, y: int, k: int) -> Set<int> {
    Set::new(|i: int| 0 <= i < k && edge_crosses(vs, i, y))
}

/// Walking along the polygon, the number of crossings so far is odd
/// exactly when the walk has changed sides of the scanline.
proof fn lemma_crossing_parity(vs: Seq<(i32, i32)>, y: int, k: int)
    requires
        0 <= k,
    ensures
        crossings_upto(vs, y, k).finite(),
        crossings_upto(vs, y, k).len() % 2 == if below(vs, 0, y) == below(vs, k, y) {
            0int
        } else {
            1int
        },
    decreases k,
{
    broadcast use vstd::set::group_set_axioms;

    if k == 0 {
        assert(crossings_upto(vs, y, k) =~= Set::<int>::empty());
    } else {
        lemma_crossing_parity(vs, y, k - 1);
        let prev = crossings_upto(vs, y, k - 1);
        assert(edge_crosses(vs, k - 1, y) <==> below(vs, k - 1, y) != below(vs, k, y));
        if edge_crosses(vs, k - 1, y) {
            assert(crossings_upto(vs, y, k) =~= prev.insert(k - 1));
        } else {
            assert(crossings_upto(vs, y, k) =~= prev);
        }
    }
}

/// A scanline crosses a closed polygon an even number of times.
pub proof fn lemma_even_crossings(vs: Seq<(i32, i32)>, y: int)
    requires
        vs.len() >= 1,
    ensures
        crossings(vs, y).finite(),
        crossings(vs, y).len() % 2 == 0,
{
    let n = vs.len() as int;
    lemma_crossing_parity(vs, y, n);
    assert(crossings(vs, y) =~= crossings_upto(vs, y, n));
    vstd::arithmetic::div_mod::lemma_mod_self_0(n);
    vstd::arithmetic::div_mod::lemma_small_mod(0, n as nat);
}

/// A rectangle with its sides along the axes fills the pixels from its
/// left column up to, but not including, its right column, in the rows
/// from its bottom up to, but not including, its top.
pub proof fn lemma_rectangle(left: i32, bottom: i32, right: i32, top: i32)
    requires
        left < right,
        bottom < top,
    ensures
        polygon_pixels(seq![(left, bottom), (right, bottom), (right, top), (left, top)]) == Set::new(
            |p: (int, int)| left <= p.0 < right && bottom <= p.1 < top,
        ),
{
    broadcast use vstd::set::group_set_axioms;

    let vs = seq![(left, bottom), (right, bottom), (right, top), (left, top)];
    let rise = top - bottom;
    assert(vs.len() == 4);
    assert(0int % 4 == 0 && 1int % 4 == 1 && 2int % 4 == 2 && 3int % 4 == 3 && 4int % 4 == 0);
    assert(vs[0] == (left, bottom) && vs[1] == (right, bottom) && vs[2] == (right, top) && vs[3] == (
        left,
        top,
    ));
    assert(vertex(vs, 0) == (left as int, bottom as int));
    assert(vertex(vs, 1) == (right as int, bottom as int));
    assert(vertex(vs, 2) == (right as int, top as int));
    assert(vertex(vs, 3) == (left as int, top as int));
    assert(vertex(vs, 4) == (left as int, bottom as int));
    assert forall|x: int, y: int| inside(vs, x, y) <==> (left <= x < right && bottom <= y < top) by {
        let found = crossings_left(vs, x, y);
        assert(!edge_crosses(vs, 0, y) && !edge_crosses(vs, 2, y));
        assert(edge_crosses(vs, 1, y) <==> bottom <= y < top);
        assert(edge_crosses(vs, 3, y) <==> bottom <= y < top);
        assert(crossing_num(vs, 1, y) == right * rise) by (nonlinear_arith)
            requires
                crossing_num(vs, 1, y) == right * rise + (y - bottom) * (right - right),
        ;
        assert(crossing_num(vs, 3, y) == left * rise) by (nonlinear_arith)
            requires
                crossing_num(vs, 3, y) == left * rise + (y - bottom) * (left - left),
        ;
        assert(right * rise <= x * rise <==> right <= x) by (nonlinear_arith)
            requires
                rise > 0,
        ;
        assert(left * rise <= x * rise <==> left <= x) by (nonlinear_arith)
            requires
                rise > 0,
        ;
        assert(!(x * rise < right * rise && right * rise < (x + 1) * rise)) by (nonlinear_arith)
            requires
                rise > 0,
        ;
        assert(!(x * rise < left * rise && left * rise < (x + 1) * rise)) by (nonlinear_arith)
            requires
                rise > 0,
        ;
        assert forall|i: int| 0 <= i < vs.len() implies !#[trigger] crosses_between(vs, i, x, y) by {
            assert(i == 0 || i == 1 || i == 2 || i == 3);
        }
        if bottom <= y < top {
            if x < left {
                assert(found =~= Set::<int>::empty());
            } else if x < right {
                assert(found =~= Set::<int>::empty().insert(3));
            } else {
                assert(found =~= Set::<int>::empty().insert(1).insert(3));
            }
        } else {
            assert(found =~= Set::<int>::empty());
        }
    }
    assert(polygon_pixels(vs) =~= Set::new(
        |p: (int, int)| left <= p.0 < right && bottom <= p.1 < top,
    ));
}

/// On a scanline that no edge crosses no pixel is filled.
proof fn lemma_empty_scanline(vs: Seq<(i32, i32)>, x: int, y: int)
    requires
        forall|e: int| 0 <= e < vs.len() ==> !#[trigger] edge_crosses(vs, e, y),
    ensures
        !inside(vs, x, y),
{
    assert(crossings_left(vs, x, y) =~= Set::<int>::empty());
}

proof fn lemma_pos_left(a: Active, b: Active, x: int)
    requires
        a.dy > 0,
        b.dy > 0,
        pos_le(a, b),
        b.num <= x * b.dy,
    ensures
        a.num <= x * a.dy,
{
    let (an, ad) = (a.num as int, a.dy as int);
    let (bn, bd) = (b.num as int, b.dy as int);
    assert(bn * ad <= (x * bd) * ad) by (nonlinear_arith)
        requires
            bn <= x * bd,
            ad > 0,
    ;
    assert((x * bd) * ad == (x * ad) * bd) by (nonlinear_arith);
    assert(an <= x * ad) by (nonlinear_arith)
        requires
            an * bd <= (x * ad) * bd,
            bd > 0,
    ;
}

proof fn lemma_pos_right(a: Active, b: Active, z: int)
    requires
        a.dy > 0,
        b.dy > 0,
        pos_le(a, b),
        z * a.dy <= a.num,
    ensures
        z * b.dy <= b.num,
{
    let (an, ad) = (a.num as int, a.dy as int);
    let (bn, bd) = (b.num as int, b.dy as int);
    assert((z * ad) * bd <= an * bd) by (nonlinear_arith)
        requires
            z * ad <= an,
            bd > 0,
    ;
    assert((z * ad) * bd == (z * bd) * ad) by (nonlinear_arith);
    assert(z * bd <= bn) by (nonlinear_arith)
        requires
            (z * bd) * ad <= bn * ad,
            ad > 0,
    ;
}

/// In a sorted active table the edges that cross at or left of `x` come
/// first: there is a place that parts them from the rest.
proof fn lemma_boundary(aet: Seq<Active>, x: int) -> (c: int)
    requires
        sorted(aet),
        forall|j: int| 0 <= j < aet.len() ==> (#[trigger] aet[j]).dy > 0,
    ensures
        0 <= c <= aet.len(),
        forall|j: int| 0 <= j < c ==> (#[trigger] aet[j]).num <= x * aet[j].dy,
        forall|j: int| c <= j < aet.len() ==> (#[trigger] aet[j]).num > x * aet[j].dy,
    decreases aet.len(),
{
    if aet.len() == 0 {
        0
    } else {
        let last = aet.last();
        if last.num <= x * last.dy {
            assert forall|j: int| 0 <= j < aet.len() implies (#[trigger] aet[j]).num <= x
                * aet[j].dy by {
                if j < aet.len() - 1 {
                    assert(pos_le(aet[j], aet[aet.len() - 1]));
                    lemma_pos_left(aet[j], last, x);
                }
            }
            aet.len() as int
        } else {
            let rest = aet.drop_last();
            assert forall|j: int, k: int| 0 <= j < k < rest.len() implies pos_le(
                #[trigger] rest[j],
                #[trigger] rest[k],
            ) by {
                assert(rest[j] == aet[j] && rest[k] == aet[k]);
            }
            assert forall|j: int| 0 <= j < rest.len() implies (#[trigger] rest[j]).dy > 0 by {
                assert(rest[j] == aet[j]);
            }
            let c = lemma_boundary(rest, x);
            assert forall|j: int| 0 <= j < c implies (#[trigger] aet[j]).num <= x * aet[j].dy by {
                assert(rest[j] == aet[j]);
            }
            assert forall|j: int| c <= j < aet.len() implies (#[trigger] aet[j]).num > x
                * aet[j].dy by {
                if j < rest.len() {
                    assert(rest[j] == aet[j]);
                }
            }
            c
        }
    }
}

/// If the first `c` edges of the active table are those that cross at or
/// left of `x`, then `c` edges of the polygon do.
proof fn lemma_left_prefix(vs: Seq<(i32, i32)>, y: int, aet: Seq<Active>, act: Seq<int>, x: int, c: int)
    requires
        tracks(vs, y, aet, act),
        forall|e: int| 0 <= e < vs.len() ==> (act.contains(e) <==> #[trigger] edge_crosses(vs, e, y)),
        0 <= c <= aet.len(),
        forall|j: int| 0 <= j < c ==> (#[trigger] aet[j]).num <= x * aet[j].dy,
        forall|j: int| c <= j < aet.len() ==> (#[trigger] aet[j]).num > x * aet[j].dy,
    ensures
        crossings_left(vs, x, y).finite(),
        crossings_left(vs, x, y).len() == c,
{
    let pre = act.subrange(0, c);
    assert(pre.no_duplicates());
    pre.unique_seq_to_set();
    assert forall|e: int| pre.to_set().contains(e) <==> crossings_left(vs, x, y).contains(e) by {
        if pre.to_set().contains(e) {
            let j = choose|j: int| 0 <= j < pre.len() && pre[j] == e;
            assert(act[j] == e);
            assert(act.contains(e));
            assert(aet[j].num <= x * aet[j].dy);
        }
        if crossings_left(vs, x, y).contains(e) {
            assert(act.contains(e));
            let j = choose|j: int| 0 <= j < act.len() && act[j] == e;
            if j >= c {
                assert(aet[j].num > x * aet[j].dy);
            }
            assert(pre[j] == e);
        }
    }
    assert(pre.to_set() =~= crossings_left(vs, x, y));
    vstd::seq_lib::seq_to_set_is_finite(pre);
}

/// The spans between the pairs of the sorted active table are the filled
/// pixels of the scanline.
proof fn lemma_pairs_inside(vs: Seq<(i32, i32)>, y: int, aet: Seq<Active>, act: Seq<int>, x: int)
    requires
        vs.len() >= 1,
        tracks(vs, y, aet, act),
        sorted(aet),
        forall|e: int| 0 <= e < vs.len() ==> (act.contains(e) <==> #[trigger] edge_crosses(vs, e, y)),
    ensures
        (exists|m: int| m < aet.len() && #[trigger] in_pair(aet, m, x)) <==> inside(vs, x, y),
{
    assert forall|j: int| 0 <= j < aet.len() implies (#[trigger] aet[j]).dy > 0 by {
        let e = act[j];
    }
    if exists|m: int| m < aet.len() && #[trigger] in_pair(aet, m, x) {
        let m = choose|m: int| m < aet.len() && #[trigger] in_pair(aet, m, x);
        let c = 2 * m + 1;
        assert forall|j: int| 0 <= j < c implies (#[trigger] aet[j]).num <= x * aet[j].dy by {
            if j < 2 * m {
                assert(pos_le(aet[j], aet[2 * m]));
                lemma_pos_left(aet[j], aet[2 * m], x);
            }
        }
        assert forall|j: int| c <= j < aet.len() implies (x + 1) * (#[trigger] aet[j]).dy
            <= aet[j].num by {
            if j > c {
                assert(pos_le(aet[c], aet[j]));
                lemma_pos_right(aet[c], aet[j], x + 1);
            }
        }
        assert forall|j: int| c <= j < aet.len() implies (#[trigger] aet[j]).num > x * aet[j].dy by {
            assert((x + 1) * aet[j].dy <= aet[j].num);
            assert((x + 1) * aet[j].dy == x * aet[j].dy + aet[j].dy) by (nonlinear_arith);
        }
        lemma_left_prefix(vs, y, aet, act, x, c);
        assert forall|e: int| 0 <= e < vs.len() implies !#[trigger] crosses_between(vs, e, x, y) by {
            if crosses_between(vs, e, x, y) {
                assert(act.contains(e));
                let j = choose|j: int| 0 <= j < act.len() && act[j] == e;
                if j < c {
                    assert(aet[j].num <= x * aet[j].dy);
                } else {
                    assert((x + 1) * aet[j].dy <= aet[j].num);
                }
            }
        }
        assert(inside(vs, x, y));
    }
    if inside(vs, x, y) {
        let c = lemma_boundary(aet, x);
        lemma_left_prefix(vs, y, aet, act, x, c);
        lemma_even_crossings(vs, y);
        act.unique_seq_to_set();
        assert(act.to_set() =~= crossings(vs, y)) by {
            assert forall|e: int| act.to_set().contains(e) <==> crossings(vs, y).contains(e) by {
                if act.contains(e) {
                    let j = choose|j: int| 0 <= j < act.len() && act[j] == e;
                    assert(0 <= act[j] < vs.len());
                }
            }
        }
        assert(c % 2 == 1);
        assert(aet.len() % 2 == 0);
        let m = (c - 1) / 2;
        assert(2 * m + 1 == c);
        assert(c < aet.len());
        let e = act[c];
        assert(act.contains(e));
        assert(edge_crosses(vs, e, y));
        assert(!crosses_between(vs, e, x, y));
        assert(aet[c].num > x * aet[c].dy);
        assert(aet[c - 1].num <= x * aet[c - 1].dy);
        assert(in_pair(aet, m, x));
    }
}

/// The active table for the scanline `y`: the edges of the old table that
/// have not ended, and the edges of the edge table that have started, in
/// order of their crossings.
fn rebuild(
    aet: &Vec<Active>,
    table: &mut Vec<Edge>,
    y: i64,
    Ghost(vs): Ghost<Seq<(i32, i32)>>,
    Ghost(act): Ghost<Seq<int>>,
    Ghost(pend): Ghost<Seq<int>>,
) -> (r: (Vec<Active>, Ghost<Seq<int>>, Ghost<Seq<int>>))
    requires
        vs.len() >= 1,
        -0x8000_0000 <= y <= 0x8000_0000,
        pending_tracks(vs, old(table)@, pend),
        descending(old(table)@),
        tracks(vs, y as int, aet@, act),
        forall|j: int|
            0 <= j < act.len() ==> edge_low(vs, #[trigger] act[j]).1 < y <= edge_high(vs, act[j]).1,
        forall|j: int| 0 <= j < act.len() ==> !pend.contains(#[trigger] act[j]),
        covers(vs, y as int, act, pend),
    ensures
        pending_tracks(vs, final(table)@, r.2@),
        descending(final(table)@),
        tracks(vs, y as int, r.0@, r.1@),
        sorted(r.0@),
        all_ok(r.0@),
        forall|e: int|
            0 <= e < vs.len() ==> (r.1@.contains(e) <==> #[trigger] edge_crosses(vs, e, y as int)),
        forall|j: int| 0 <= j < r.1@.len() ==> !r.2@.contains(#[trigger] r.1@[j]),
        forall|j: int| 0 <= j < r.2@.len() ==> edge_low(vs, #[trigger] r.2@[j]).1 > y,
        covers(vs, y as int, r.1@, r.2@),
{
    let mut fresh: Vec<Active> = Vec::new();
    let ghost mut now: Seq<int> = Seq::empty();
    let mut j: usize = 0;
    while j < aet.len()
        invariant
            vs.len() >= 1,
            j <= aet@.len(),
            tracks(vs, y as int, aet@, act),
            forall|k: int|
                0 <= k < act.len() ==> edge_low(vs, #[trigger] act[k]).1 < y <= edge_high(
                    vs,
                    act[k],
                ).1,
            tracks(vs, y as int, fresh@, now),
            sorted(fresh@),
            all_ok(fresh@),
            forall|k: int| 0 <= k < now.len() ==> act.contains(#[trigger] now[k]) && edge_high(vs, now[k]).1 > y,
            forall|k: int| j <= k < act.len() ==> !now.contains(#[trigger] act[k]),
            forall|k: int| 0 <= k < j && edge_high(vs, #[trigger] act[k]).1 > y ==> now.contains(act[k]),
        decreases aet@.len() - j,
    {
        let a: Active = aet[j];
        let ghost e = act[j as int];
        if a.y_max > y {
            proof {
                lemma_crossing_bound(vs, e, y as int);
            }
            let ghost old_fresh = fresh@;
            let ghost old_now = now;
            let pos = insert_sorted(&mut fresh, a);
            proof {
                now = old_now.insert(pos as int, e);
                lemma_insert_members(old_now, pos as int, e);
                assert forall|k: int| 0 <= k < now.len() implies {
                    let u = #[trigger] now[k];
                    &&& 0 <= u < vs.len()
                    &&& edge_rise(vs, u) > 0
                    &&& fresh@[k].num == crossing_num(vs, u, y as int)
                    &&& fresh@[k].dx == edge_run(vs, u)
                    &&& fresh@[k].dy == edge_rise(vs, u)
                    &&& fresh@[k].y_max == edge_high(vs, u).1
                    &&& act.contains(u)
                    &&& edge_high(vs, u).1 > y
                } by {
                    if k < pos {
                        assert(now[k] == old_now[k] && fresh@[k] == old_fresh[k]);
                    } else if k > pos {
                        assert(now[k] == old_now[k - 1] && fresh@[k] == old_fresh[k - 1]);
                    } else {
                        assert(act[j as int] == e);
                    }
                }
                assert forall|k: int| j + 1 <= k < act.len() implies !now.contains(
                    #[trigger] act[k],
                ) by {
                    assert(act[k] != act[j as int]);
                }
            }
        }
        j += 1;
    }
    let ghost mut rest: Seq<int> = pend;
    proof {
        assert forall|e: int|
            0 <= e < vs.len() && edge_rise(vs, e) > 0 && #[trigger] edge_high(vs, e).1
                > y implies now.contains(e) || rest.contains(e) by {
            if act.contains(e) {
                let k = choose|k: int| 0 <= k < act.len() && act[k] == e;
                assert(now.contains(act[k]));
            }
        }
    }
    while table.len() > 0 && table[table.len() - 1].y_min <= y
        invariant
            vs.len() >= 1,
            -0x8000_0000 <= y <= 0x8000_0000,
            pending_tracks(vs, table@, rest),
            descending(table@),
            tracks(vs, y as int, fresh@, now),
            sorted(fresh@),
            all_ok(fresh@),
            forall|k: int|
                0 <= k < now.len() ==> edge_low(vs, #[trigger] now[k]).1 <= y < edge_high(vs, now[k]).1,
            forall|k: int| 0 <= k < now.len() ==> !rest.contains(#[trigger] now[k]),
            covers(vs, y as int, now, rest),
        decreases table@.len(),
    {
        let ghost old_table = table@;
        let ghost old_rest = rest;
        let edge: Edge = table[table.len() - 1];
        let ghost e = rest.last();
        table.pop();
        proof {
            rest = old_rest.drop_last();
            lemma_drop_last_members(old_rest);
            assert(old_rest[old_rest.len() - 1] == e);
            assert forall|k: int| 0 <= k < rest.len() implies {
                let u = #[trigger] rest[k];
                &&& 0 <= u < vs.len()
                &&& edge_rise(vs, u) > 0
                &&& table@[k].x == edge_low(vs, u).0
                &&& table@[k].y_min == edge_low(vs, u).1
                &&& table@[k].y_max == edge_high(vs, u).1
                &&& table@[k].dx == edge_run(vs, u)
                &&& table@[k].dy == edge_rise(vs, u)
            } by {
                assert(rest[k] == old_rest[k] && table@[k] == old_table[k]);
            }
            assert forall|a: int, b: int| 0 <= a < b < table@.len() implies (
            #[trigger] table@[a]).y_min >= (#[trigger] table@[b]).y_min by {
                assert(table@[a] == old_table[a] && table@[b] == old_table[b]);
            }
        }
        if edge.y_max > y {
            proof {
                lemma_crossing_bound(vs, e, y as int);
                let t = y - edge.y_min;
                assert(-0x8000_0000 * 0xffff_ffff <= edge.x * edge.dy <= 0x8000_0000 * 0xffff_ffff)
                    by (nonlinear_arith)
                    requires
                        -0x8000_0000 <= edge.x <= 0x8000_0000,
                        0 <= edge.dy <= 0xffff_ffff,
                ;
                assert(-0xffff_ffff * 0xffff_ffff <= t * edge.dx <= 0xffff_ffff * 0xffff_ffff)
                    by (nonlinear_arith)
                    requires
                        0 <= t <= 0xffff_ffff,
                        -0xffff_ffff <= edge.dx <= 0xffff_ffff,
                ;
            }
            let a = Active {
                num: (edge.x as i128) * (edge.dy as i128) + ((y - edge.y_min) as i128) * (edge.dx as i128),
                dx: edge.dx,
                dy: edge.dy,
                y_max: edge.y_max,
            };
            let ghost old_fresh = fresh@;
            let ghost old_now = now;
            let pos = insert_sorted(&mut fresh, a);
            proof {
                now = old_now.insert(pos as int, e);
                lemma_insert_members(old_now, pos as int, e);
                assert(!old_now.contains(e)) by {
                    if old_now.contains(e) {
                        let k = choose|k: int| 0 <= k < old_now.len() && old_now[k] == e;
                        assert(!old_rest.contains(old_now[k]));
                        assert(old_rest.contains(e));
                    }
                }
                assert forall|k: int| 0 <= k < now.len() implies {
                    let u = #[trigger] now[k];
                    &&& 0 <= u < vs.len()
                    &&& edge_rise(vs, u) > 0
                    &&& fresh@[k].num == crossing_num(vs, u, y as int)
                    &&& fresh@[k].dx == edge_run(vs, u)
                    &&& fresh@[k].dy == edge_rise(vs, u)
                    &&& fresh@[k].y_max == edge_high(vs, u).1
                    &&& edge_low(vs, u).1 <= y < edge_high(vs, u).1
                    &&& !rest.contains(u)
                } by {
                    if k < pos {
                        assert(now[k] == old_now[k] && fresh@[k] == old_fresh[k]);
                        assert(!old_rest.contains(old_now[k]));
                    } else if k > pos {
                        assert(now[k] == old_now[k - 1] && fresh@[k] == old_fresh[k - 1]);
                        assert(!old_rest.contains(old_now[k - 1]));
                    }
                }
            }
        } else {
            proof {
                assert forall|k: int| 0 <= k < now.len() implies !rest.contains(#[trigger] now[k]) by {
                    assert(!old_rest.contains(now[k]));
                }
            }
        }
        proof {
            assert forall|u: int|
                0 <= u < vs.len() && edge_rise(vs, u) > 0 && #[trigger] edge_high(vs, u).1
                    > y implies now.contains(u) || rest.contains(u) by {
                if u != e {
                    if old_rest.contains(u) {
                        assert(rest.contains(u));
                    }
                }
            }
        }
    }
    proof {
        assert forall|k: int| 0 <= k < rest.len() implies edge_low(vs, #[trigger] rest[k]).1 > y by {
            assert(table@[k].y_min >= table@[table@.len() - 1].y_min);
        }
        assert forall|e: int| 0 <= e < vs.len() implies (now.contains(e) <==> #[trigger] edge_crosses(
            vs,
            e,
            y as int,
        )) by {
            if now.contains(e) {
                let k = choose|k: int| 0 <= k < now.len() && now[k] == e;
                assert(edge_low(vs, now[k]).1 <= y < edge_high(vs, now[k]).1);
            }
            if edge_crosses(vs, e, y as int) {
                assert(edge_rise(vs, e) > 0);
                assert(edge_high(vs, e).1 > y);
                if rest.contains(e) {
                    let k = choose|k: int| 0 <= k < rest.len() && rest[k] == e;
                    assert(edge_low(vs, rest[k]).1 > y);
                }
            }
        }
    }
    (fresh, Ghost(now), Ghost(rest))
}

/// Moves every crossing of the active table to the next scanline.
fn advance(aet: &mut Vec<Active>, Ghost(vs): Ghost<Seq<(i32, i32)>>, Ghost(act): Ghost<Seq<int>>, Ghost(y): Ghost<int>)
    requires
        vs.len() >= 1,
        tracks(vs, y, old(aet)@, act),
        forall|j: int| 0 <= j < act.len() ==> edge_crosses(vs, #[trigger] act[j], y),
    ensures
        tracks(vs, y + 1, final(aet)@, act),
{
    let n: usize = aet.len();
    let mut j: usize = 0;
    while j < n
        invariant
            vs.len() >= 1,
            n == aet@.len(),
            n == act.len(),
            j <= n,
            act.no_duplicates(),
            forall|k: int| 0 <= k < act.len() ==> edge_crosses(vs, #[trigger] act[k], y),
            forall|k: int|
                0 <= k < act.len() ==> {
                    let e = #[trigger] act[k];
                    &&& 0 <= e < vs.len()
                    &&& edge_rise(vs, e) > 0
                    &&& aet@[k].num == crossing_num(vs, e, if k < j { y + 1 } else { y })
                    &&& aet@[k].dx == edge_run(vs, e)
                    &&& aet@[k].dy == edge_rise(vs, e)
                    &&& aet@[k].y_max == edge_high(vs, e).1
                },
        decreases n - j,
    {
        let mut a: Active = aet[j];
        proof {
            let e = act[j as int];
            assert(edge_crosses(vs, e, y));
            lemma_crossing_bound(vs, e, y);
            lemma_crossing_step(vs, e, y);
        }
        a.num = a.num + a.dx as i128;
        aet[j] = a;
        j += 1;
    }
}

impl<S> Rasterizer<S> {
    /// Fills the polygon with the given vertices: the pixels
    /// `polygon_pixels` of it that lie inside the buffers take `color`.
    pub fn draw_polygon(&mut self, vertices: &[(i32, i32)], color: Bgra8)
        requires
            old(self)@.wf(),
            vertices@.len() >= 3,
        ensures
            final(self)@ == old(self)@.paint(polygon_pixels(vertices@), color),
            final(self)@.wf(),
    {
        let ghost vs = vertices@;
        let (mut table, Ghost(all)) = build_table(vertices);
        let ghost mut pend: Seq<int> = all;
        let height: usize = self.height();
        if table.len() == 0 {
            proof {
                assert forall|x: int, y: int| !polygon_pixels(vs).contains((x, y)) by {
                    assert forall|e: int| 0 <= e < vs.len() implies !#[trigger] edge_crosses(vs, e, y) by {
                        if edge_rise(vs, e) > 0 {
                            assert(all.contains(e));
                        }
                    }
                    lemma_empty_scanline(vs, x, y);
                }
                old(self)@.lemma_paint_empty(color);
                old(self)@.lemma_paint_same(polygon_pixels(vs), Set::empty(), color);
            }
            return ;
        }
        let bottom: i64 = table[table.len() - 1].y_min;
        let start: i64 = if bottom < 0 { 0 } else { bottom };
        let mut y: i64 = start;
        let mut aet: Vec<Active> = Vec::new();
        let ghost mut act: Seq<int> = Seq::empty();
        proof {
            assert(all[all.len() - 1] == all.last());
            lemma_crossing_bound(vs, all.last(), bottom as int);
            assert forall|e: int| 0 <= e < vs.len() && edge_rise(vs, e) > 0 implies #[trigger] edge_low(
                vs,
                e,
            ).1 >= bottom by {
                assert(all.contains(e));
                let k = choose|k: int| 0 <= k < all.len() && all[k] == e;
                assert(table@[k].y_min >= table@[table@.len() - 1].y_min);
            }
            old(self)@.lemma_paint_empty(color);
            assert(polygon_rows(vs, start as int, start as int) =~= Set::<(int, int)>::empty());
        }
        while (y as i128) < (height as i128) && (aet.len() > 0 || table.len() > 0)
            invariant
                vs == vertices@,
                vs.len() >= 3,
                self@.wf(),
                self@.width == old(self)@.width,
                self@.height == old(self)@.height,
                height == self@.height,
                0 <= start <= y,
                (aet@.len() > 0 || table@.len() > 0) ==> y <= 0x8000_0000,
                pending_tracks(vs, table@, pend),
                descending(table@),
                tracks(vs, y as int, aet@, act),
                forall|j: int|
                    0 <= j < act.len() ==> edge_low(vs, #[trigger] act[j]).1 < y <= edge_high(
                        vs,
                        act[j],
                    ).1,
                forall|j: int| 0 <= j < act.len() ==> !pend.contains(#[trigger] act[j]),
                covers(vs, y as int, act, pend),
                self@ == old(self)@.paint(polygon_rows(vs, start as int, y as int), color),
            decreases height - y,
        {
            let (fresh, Ghost(now), Ghost(rest)) = rebuild(&aet, &mut table, y, Ghost(vs), Ghost(act), Ghost(pend));
            aet = fresh;
            proof {
                act = now;
                pend = rest;
            }
            fill_pairs(self, y as usize, &aet, color);
            proof {
                let done = polygon_rows(vs, start as int, y as int);
                let spans = pair_spans(aet@, y as int, aet@.len() as int);
                let next = polygon_rows(vs, start as int, y + 1);
                old(self)@.lemma_paint_union(done, spans, color);
                assert forall|px: int, py: int| old(self)@.contains(px, py) implies (done.union(
                    spans,
                ).contains((px, py)) <==> next.contains((px, py))) by {
                    if py == y {
                        lemma_pairs_inside(vs, y as int, aet@, act, px);
                    }
                }
                old(self)@.lemma_paint_same(done.union(spans), next, color);
                assert forall|j: int| 0 <= j < act.len() implies edge_crosses(vs, #[trigger] act[j], y as int) by {
                    assert(act.contains(act[j]));
                }
                if act.len() > 0 {
                    assert(edge_crosses(vs, act[0], y as int));
                    lemma_crossing_bound(vs, act[0], y as int);
                }
                if rest.len() > 0 {
                    assert(edge_low(vs, rest[0]).1 > y);
                    lemma_crossing_bound(vs, rest[0], edge_low(vs, rest[0]).1);
                }
            }
            advance(&mut aet, Ghost(vs), Ghost(act), Ghost(y as int));
            y += 1;
        }
        proof {
            let done = polygon_rows(vs, start as int, y as int);
            assert forall|px: int, py: int| old(self)@.contains(px, py) implies (done.contains(
                (px, py),
            ) <==> polygon_pixels(vs).contains((px, py))) by {
                if py < start {
                    assert forall|e: int| 0 <= e < vs.len() implies !#[trigger] edge_crosses(vs, e, py) by {
                        if edge_rise(vs, e) > 0 {
                            assert(edge_low(vs, e).1 >= bottom);
                        }
                    }
                    lemma_empty_scanline(vs, px, py);
                } else if py >= y {
                    assert(aet@.len() == 0 && table@.len() == 0);
                    assert forall|e: int| 0 <= e < vs.len() implies !#[trigger] edge_crosses(vs, e, py) by {
                        if edge_crosses(vs, e, py) {
                            assert(edge_rise(vs, e) > 0);
                            assert(edge_high(vs, e).1 > y);
                            assert(act.contains(e) || pend.contains(e));
                        }
                    }
                    lemma_empty_scanline(vs, px, py);
                }
            }
            old(self)@.lemma_paint_same(done, polygon_pixels(vs), color);
        }
    }
}

} // verus!
