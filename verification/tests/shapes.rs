use lab_graphics::color::Bgra8;
use lab_graphics::rasterizer::Rasterizer;
use lab_graphics::shaders::EmptyShader;

const GREEN: Bgra8 = Bgra8 { b: 0, g: 255, r: 0, a: 0 };
const ZERO: Bgra8 = Bgra8 { b: 0, g: 0, r: 0, a: 0 };

#[test]
fn crosshair_is_two_crossing_bars() {
    let mut rst = Rasterizer::new(20, 16, EmptyShader);
    rst.draw_crosshair(6, GREEN);
    // The centre is (10, 8); the bars start three before it.
    for y in 0..16usize {
        for x in 0..20usize {
            let across = (7..13).contains(&x) && (7..=9).contains(&y);
            let upright = (9..=11).contains(&x) && (5..11).contains(&y);
            assert_eq!(rst.color(x, y), Some(if across || upright { GREEN } else { ZERO }), "({}, {})", x, y);
        }
    }
}

#[test]
fn crosshair_of_size_zero_draws_nothing() {
    let mut rst = Rasterizer::new(1, 1, EmptyShader);
    rst.draw_crosshair(0, GREEN);
    assert_eq!(rst.data(), vec![0]);
}

#[test]
fn crosshair_wider_than_the_image_is_clipped() {
    let mut rst = Rasterizer::new(4, 4, EmptyShader);
    rst.draw_crosshair(5, GREEN);
    // The centre is (2, 2) and both bars start at 0.
    for y in 0..4usize {
        for x in 0..4usize {
            let across = (1..=3).contains(&y);
            let upright = (1..=3).contains(&x);
            assert_eq!(rst.color(x, y), Some(if across || upright { GREEN } else { ZERO }));
        }
    }
}

/// The midpoint algorithm with its decision variable, step by step.
fn trace(width: i64, height: i64, a: i64, b: i64, cx: i64, cy: i64) -> Vec<(i64, i64)> {
    let mut pixels = Vec::new();
    let (mut x, mut k) = (a, 0i64);
    let mut d = 4 * a * a - a * b * b - b * b;
    loop {
        let four = [(cx + x, cy + k), (cx - x, cy + k), (cx - x, cy - k), (cx + x, cy - k)];
        if four.iter().any(|p| p.0 < 0 || p.0 >= width || p.1 < 0 || p.1 >= height) {
            break;
        }
        pixels.extend(four);
        if d > 0 {
            d += 4 * a * a * (2 * k + 3) - 8 * b * b * (x + 1);
            x += 1;
        } else {
            d += 4 * a * a * (2 * k + 3);
        }
        k += 1;
    }
    pixels
}

fn compare_hyperbola(width: usize, height: usize, a: i32, b: i32, center: (i32, i32)) -> usize {
    let mut rst = Rasterizer::new(width, height, EmptyShader);
    rst.draw_hyperbola(a, b, center, GREEN);
    let pixels = trace(width as i64, height as i64, a as i64, b as i64, center.0 as i64, center.1 as i64);
    let mut count = 0;
    for y in 0..height {
        for x in 0..width {
            let on = pixels.contains(&(x as i64, y as i64));
            assert_eq!(rst.color(x, y), Some(if on { GREEN } else { ZERO }), "({}, {})", x, y);
            if on {
                count += 1;
            }
        }
    }
    count
}

#[test]
fn hyperbola_starts_at_its_vertices() {
    let mut rst = Rasterizer::new(41, 41, EmptyShader);
    rst.draw_hyperbola(5, 8, (20, 20), GREEN);
    assert_eq!(rst.color(25, 20), Some(GREEN));
    assert_eq!(rst.color(15, 20), Some(GREEN));
    assert_eq!(rst.color(20, 20), Some(ZERO));
    // The decision value of the first row is 100 - 320 - 64, not positive:
    // the curve goes straight up.
    assert_eq!(rst.color(25, 21), Some(GREEN));
    assert_eq!(rst.color(25, 19), Some(GREEN));
    assert_eq!(rst.color(15, 21), Some(GREEN));
    assert_eq!(rst.color(15, 19), Some(GREEN));
}

#[test]
fn hyperbola_follows_the_midpoint_algorithm() {
    assert!(compare_hyperbola(41, 41, 5, 8, (20, 20)) > 40);
    assert!(compare_hyperbola(64, 48, 3, 4, (30, 20)) > 40);
    assert!(compare_hyperbola(64, 64, 10, 3, (32, 32)) > 20);
    assert!(compare_hyperbola(30, 30, 1, 1, (15, 15)) > 20);
    assert!(compare_hyperbola(30, 30, -4, 6, (15, 15)) > 8);
}

#[test]
fn hyperbola_with_a_vertex_outside_draws_nothing() {
    assert_eq!(compare_hyperbola(20, 20, 12, 5, (10, 10)), 0);
    assert_eq!(compare_hyperbola(20, 20, 3, 5, (-1, 10)), 0);
    assert_eq!(compare_hyperbola(20, 20, 3, 5, (10, 20)), 0);
    assert_eq!(compare_hyperbola(20, 20, 3, 5, (10, -1)), 0);
}

#[test]
fn hyperbola_at_the_bottom_row_draws_one_row() {
    assert_eq!(compare_hyperbola(20, 20, 3, 5, (10, 0)), 2);
    assert_eq!(compare_hyperbola(20, 20, 0, 5, (10, 0)), 1);
}

#[test]
fn hyperbola_with_extreme_axes_does_not_overflow() {
    let mut rst = Rasterizer::new(8, 8, EmptyShader);
    rst.draw_hyperbola(i32::MIN, i32::MAX, (4, 4), GREEN);
    rst.draw_hyperbola(i32::MAX, i32::MIN, (i32::MAX, i32::MAX), GREEN);
    rst.draw_hyperbola(0, i32::MIN, (4, 4), GREEN);
    // Only the last call has its vertices inside: with no width the curve
    // is the column through the centre, as far as both mirror images fit.
    for y in 0..8usize {
        for x in 0..8usize {
            assert_eq!(rst.color(x, y), Some(if x == 4 && y >= 1 { GREEN } else { ZERO }));
        }
    }
}
