use lab_graphics::color::Bgra8;
use lab_graphics::rasterizer::Rasterizer;
use lab_graphics::shaders::EmptyShader;

const RED: Bgra8 = Bgra8 { b: 0, g: 0, r: 255, a: 0 };
const ZERO: Bgra8 = Bgra8 { b: 0, g: 0, r: 0, a: 0 };

/// The even-odd rule, counted edge by edge in exact arithmetic.
fn filled(vs: &[(i32, i32)], x: i64, y: i64) -> bool {
    let n = vs.len();
    let mut left = 0;
    for i in 0..n {
        let (p, q) = (vs[i], vs[(i + 1) % n]);
        let (low, high) = if p.1 <= q.1 { (p, q) } else { (q, p) };
        let (lx, ly, hx, hy) = (low.0 as i64, low.1 as i64, high.0 as i64, high.1 as i64);
        if !(ly <= y && y < hy) {
            continue;
        }
        let rise = hy - ly;
        let num = lx * rise + (y - ly) * (hx - lx);
        if num <= x * rise {
            left += 1;
        } else if num < (x + 1) * rise {
            return false;
        }
    }
    left % 2 == 1
}

/// The scanline fill as it is usually written, with crossings kept as
/// single-precision numbers that are advanced by the inverse slope.
fn filled_by_floats(width: usize, height: usize, vert: &[(i32, i32)]) -> Vec<bool> {
    struct Edge {
        from: (f32, f32),
        to_y: f32,
        k_r: f32,
    }
    struct ActiveEdge {
        x: f32,
        ymax: f32,
        k_r: f32,
    }
    let vert: Vec<(f32, f32)> = vert.iter().map(|p| (p.0 as f32, p.1 as f32)).collect();
    let mut out = vec![false; width * height];
    let mut edges = Vec::new();
    for i in 0..vert.len() {
        let from = vert[i];
        let to = vert[(i + 1) % vert.len()];
        if from.1 < to.1 {
            edges.push(Edge { from, to_y: to.1, k_r: (to.0 - from.0) / (to.1 - from.1) });
        } else if from.1 > to.1 {
            edges.push(Edge { from: to, to_y: from.1, k_r: (to.0 - from.0) / (to.1 - from.1) });
        }
    }
    edges.sort_by(|lhs, rhs| rhs.from.1.total_cmp(&lhs.from.1).then(rhs.from.0.total_cmp(&lhs.from.0)));
    let y_min = edges[edges.len() - 1].from.1 as usize;
    let y_max = vert.iter().map(|e| e.1 as usize).max().unwrap();
    let mut aet: Vec<ActiveEdge> = Vec::new();
    for y in y_min..y_max {
        while let Some(edge) = edges.last() {
            if y >= edge.from.1 as usize {
                let pos = aet
                    .partition_point(|ae| (ae.x < edge.from.0) || (ae.x == edge.from.0 && ae.k_r < edge.k_r));
                aet.insert(pos, ActiveEdge { x: edge.from.0, ymax: edge.to_y, k_r: edge.k_r });
                edges.pop();
                continue;
            }
            break;
        }
        aet.retain(|ae| y < ae.ymax as usize);
        let mut i = 0;
        while i + 1 < aet.len() {
            let x1 = aet[i].x.ceil() as usize;
            let x2 = aet[i + 1].x.floor() as usize;
            for x in x1..x2 {
                if x < width && y < height {
                    out[(height - 1 - y) * width + x] = true;
                }
            }
            aet[i].x += aet[i].k_r;
            aet[i + 1].x += aet[i + 1].k_r;
            i += 2;
        }
    }
    out
}

fn compare_with_rule(width: usize, height: usize, vs: &[(i32, i32)]) {
    let mut rst = Rasterizer::new(width, height, EmptyShader);
    rst.draw_polygon(&vs, RED);
    for y in 0..height {
        for x in 0..width {
            let expected = if filled(vs, x as i64, y as i64) { RED } else { ZERO };
            assert_eq!(rst.color(x, y), Some(expected), "pixel ({}, {})", x, y);
        }
    }
}

#[test]
fn square_fills_its_hundred_pixels() {
    let mut rst = Rasterizer::new(32, 32, EmptyShader);
    rst.draw_polygon(&[(10, 10), (20, 10), (20, 20), (10, 20)], RED);
    let mut count = 0;
    for y in 0..32usize {
        for x in 0..32usize {
            let inside = (10..20).contains(&x) && (10..20).contains(&y);
            assert_eq!(rst.color(x, y), Some(if inside { RED } else { ZERO }));
            if inside {
                count += 1;
            }
        }
    }
    assert_eq!(count, 100);
}

#[test]
fn square_given_clockwise_fills_the_same() {
    let mut a = Rasterizer::new(32, 32, EmptyShader);
    a.draw_polygon(&[(10, 10), (20, 10), (20, 20), (10, 20)], RED);
    let mut b = Rasterizer::new(32, 32, EmptyShader);
    b.draw_polygon(&[(10, 20), (20, 20), (20, 10), (10, 10)], RED);
    assert_eq!(a.data(), b.data());
}

#[test]
fn triangle_follows_the_even_odd_rule() {
    compare_with_rule(40, 40, &[(3, 2), (35, 11), (14, 37)]);
}

#[test]
fn concave_polygon_follows_the_even_odd_rule() {
    compare_with_rule(
        60,
        60,
        &[(5, 5), (30, 20), (55, 5), (40, 30), (55, 55), (30, 40), (5, 55), (20, 30)],
    );
}

#[test]
fn self_crossing_polygon_follows_the_even_odd_rule() {
    compare_with_rule(50, 50, &[(5, 5), (45, 40), (45, 5), (5, 40)]);
    compare_with_rule(50, 50, &[(25, 2), (40, 47), (3, 18), (47, 18), (10, 47)]);
}

#[test]
fn polygon_partly_outside_is_clipped() {
    compare_with_rule(20, 20, &[(-10, -7), (30, 4), (12, 33)]);
    compare_with_rule(20, 20, &[(-10, -10), (-3, -10), (-3, -2)]);
}

#[test]
fn flat_polygon_fills_nothing() {
    let mut rst = Rasterizer::new(16, 16, EmptyShader);
    rst.draw_polygon(&[(1, 5), (9, 5), (4, 5)], RED);
    assert!(rst.data().iter().all(|w| *w == 0));
}

/// Whether an edge crosses the scanline `y` within a twentieth of a pixel
/// of the boundary `x`.
fn crossing_near(vs: &[(i32, i32)], x: usize, y: usize) -> bool {
    let n = vs.len();
    (0..n).any(|i| {
        let (p, q) = (vs[i], vs[(i + 1) % n]);
        let (low, high) = if p.1 <= q.1 { (p, q) } else { (q, p) };
        let y = y as i32;
        if !(low.1 <= y && y < high.1) {
            return false;
        }
        let at = low.0 as f64 + (y - low.1) as f64 * (high.0 - low.0) as f64 / (high.1 - low.1) as f64;
        (at - x as f64).abs() < 0.05
    })
}

#[test]
fn many_sided_polygon_matches_the_float_scanline_fill() {
    let vs = [
        (500, 500),
        (450, 470),
        (400, 400),
        (300, 360),
        (340, 100),
        (420, 240),
        (460, 120),
        (530, 180),
        (520, 50),
        (670, 280),
        (480, 240),
        (630, 400),
        (480, 430),
    ];
    let (width, height) = (800usize, 800usize);
    let mut rst = Rasterizer::new(width, height, EmptyShader);
    rst.draw_polygon(&vs, RED);
    let reference = filled_by_floats(width, height, &vs);
    let data = rst.data();
    let mut filled = 0;
    let mut differing = 0;
    for y in 0..height {
        for x in 0..width {
            let i = (height - 1 - y) * width + x;
            if data[i] != 0 {
                filled += 1;
            }
            if (data[i] != 0) != reference[i] {
                // Exact crossings and rounded ones part only where an edge
                // passes a pixel boundary.
                assert!(crossing_near(&vs, x, y) || crossing_near(&vs, x + 1, y), "pixel ({}, {})", x, y);
                differing += 1;
            }
        }
    }
    assert!(filled > 50_000);
    assert!(differing < 100);
}
