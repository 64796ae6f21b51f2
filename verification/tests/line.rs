use lab_graphics::color::Bgra8;
use lab_graphics::rasterizer::Rasterizer;
use lab_graphics::shaders::EmptyShader;

const RED: Bgra8 = Bgra8 { b: 0, g: 0, r: 255, a: 0 };
const ZERO: Bgra8 = Bgra8 { b: 0, g: 0, r: 0, a: 0 };

/// The midpoint algorithm with its error accumulator, step by step.
fn midpoint(from: (i32, i32), to: (i32, i32)) -> Vec<(i32, i32)> {
    let (x0, y0) = from;
    let (x1, y1) = to;
    let dx = x1 - x0;
    let dy = y1 - y0;
    let dx_abs = dx.abs();
    let dy_abs = dy.abs();
    let up = (dx < 0 && dy < 0) || (dx > 0 && dy > 0);
    let mut pixels = Vec::new();
    if dx_abs < dy_abs {
        let (mut x0, mut y0, y1) = if dy < 0 { (x1, y1, y0) } else { (x0, y0, y1) };
        let mut d = 2 * dx_abs - dy_abs;
        while y0 < y1 {
            pixels.push((x0, y0));
            y0 += 1;
            if d <= 0 {
                d += 2 * dx_abs;
            } else {
                x0 += if up { 1 } else { -1 };
                d += 2 * (dx_abs - dy_abs);
            }
        }
    } else {
        let (mut x0, x1, mut y0) = if dx < 0 { (x1, x0, y1) } else { (x0, x1, y0) };
        let mut d = 2 * dy_abs - dx_abs;
        while x0 < x1 {
            pixels.push((x0, y0));
            x0 += 1;
            if d < 0 {
                d += 2 * dy_abs;
            } else {
                y0 += if up { 1 } else { -1 };
                d += 2 * (dy_abs - dx_abs);
            }
        }
    }
    pixels
}

fn compare(width: usize, height: usize, from: (i32, i32), to: (i32, i32)) {
    let mut rst = Rasterizer::new(width, height, EmptyShader);
    rst.draw_line(from, to, RED);
    let pixels = midpoint(from, to);
    for y in 0..height {
        for x in 0..width {
            let on = pixels.contains(&(x as i32, y as i32));
            assert_eq!(rst.color(x, y), Some(if on { RED } else { ZERO }), "({}, {}) of {:?} {:?}", x, y, from, to);
        }
    }
}

#[test]
fn horizontal_line_leaves_out_its_end() {
    let mut rst = Rasterizer::new(16, 8, EmptyShader);
    rst.draw_line((0, 0), (10, 0), RED);
    let mut count = 0;
    for y in 0..8usize {
        for x in 0..16usize {
            let expected = if y == 0 && x < 10 { RED } else { ZERO };
            assert_eq!(rst.color(x, y), Some(expected));
            if expected == RED {
                count += 1;
            }
        }
    }
    assert_eq!(count, 10);
}

#[test]
fn zero_length_line_draws_nothing() {
    let mut rst = Rasterizer::new(4, 4, EmptyShader);
    rst.draw_line((0, 0), (0, 0), RED);
    rst.draw_line((2, 3), (2, 3), RED);
    assert!(rst.data().iter().all(|w| *w == 0));
}

#[test]
fn reversed_line_draws_the_same_pixels() {
    let mut a = Rasterizer::new(16, 8, EmptyShader);
    a.draw_line((0, 0), (10, 0), RED);
    let mut b = Rasterizer::new(16, 8, EmptyShader);
    b.draw_line((10, 0), (0, 0), RED);
    assert_eq!(a.data(), b.data());
}

#[test]
fn gentle_line_rounds_a_half_up() {
    // One row over two columns: the ideal line is half way at x = 1.
    let mut rst = Rasterizer::new(4, 4, EmptyShader);
    rst.draw_line((0, 0), (2, 1), RED);
    assert_eq!(rst.color(0, 0), Some(RED));
    assert_eq!(rst.color(1, 1), Some(RED));
    assert_eq!(rst.color(1, 0), Some(ZERO));
    assert_eq!(rst.color(2, 1), Some(ZERO));
}

#[test]
fn steep_line_rounds_a_half_down() {
    // One column over three rows, then two: the ideal line is half way at
    // y = 1 of the second.
    let mut rst = Rasterizer::new(4, 4, EmptyShader);
    rst.draw_line((0, 0), (1, 2), RED);
    assert_eq!(rst.color(0, 0), Some(RED));
    assert_eq!(rst.color(0, 1), Some(RED));
    assert_eq!(rst.color(1, 1), Some(ZERO));
    assert_eq!(rst.color(1, 2), Some(ZERO));
}

#[test]
fn diagonal_is_drawn_along_x() {
    let mut rst = Rasterizer::new(5, 5, EmptyShader);
    rst.draw_line((4, 4), (0, 0), RED);
    for i in 0..5usize {
        assert_eq!(rst.color(i, i), Some(if i < 4 { RED } else { ZERO }));
    }
}

#[test]
fn lines_in_every_octant_follow_the_midpoint_algorithm() {
    let ends = [
        (20, 3),
        (20, 9),
        (20, 17),
        (14, 20),
        (10, 20),
        (7, 20),
        (0, 17),
        (0, 11),
        (0, 4),
        (5, 0),
        (10, 0),
        (16, 0),
        (11, 10),
        (10, 11),
        (9, 9),
    ];
    for end in ends {
        compare(21, 21, (10, 10), end);
        compare(21, 21, end, (10, 10));
    }
}

#[test]
fn line_is_clipped_to_the_buffers() {
    compare(10, 10, (-5, -3), (14, 12));
    compare(10, 10, (3, -20), (5, 40));
    compare(10, 10, (-100, 4), (100, 6));
    compare(10, 10, (30, 30), (40, 35));
}

#[test]
fn bench_lines_follow_the_midpoint_algorithm() {
    compare(64, 64, (0, 0), (30, 40));
    compare(64, 64, (3, 4), (5, 60));
    compare(64, 64, (0, 30), (40, 0));
}

#[test]
fn longest_possible_line_touches_only_its_pixels_inside() {
    let mut rst = Rasterizer::new(3, 3, EmptyShader);
    rst.draw_line((-4, 1), (2_000_000, 1), RED);
    for x in 0..3usize {
        assert_eq!(rst.color(x, 1), Some(RED));
        assert_eq!(rst.color(x, 0), Some(ZERO));
        assert_eq!(rst.color(x, 2), Some(ZERO));
    }
}
