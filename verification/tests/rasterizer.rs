use lab_graphics::color::Bgra8;
use lab_graphics::depth::{depth_key, near_plane_rejects, DEPTH_INFINITY, DEPTH_NEG_INFINITY};
use lab_graphics::rasterizer::Rasterizer;
use lab_graphics::shaders::{EmptyShader, NormalShader};

const ZERO: Bgra8 = Bgra8 { b: 0, g: 0, r: 0, a: 0 };
const NEAR_COLOR: Bgra8 = Bgra8 { b: 10, g: 20, r: 30, a: 0 };
const FAR_COLOR: Bgra8 = Bgra8 { b: 200, g: 100, r: 50, a: 0 };

fn key(depth: f32) -> i32 {
    depth_key(depth.to_bits()).unwrap()
}

#[test]
fn depth_keys_of_landmarks() {
    assert_eq!(depth_key(0.0f32.to_bits()), Some(0));
    assert_eq!(depth_key((-0.0f32).to_bits()), Some(0));
    assert_eq!(depth_key(1.0f32.to_bits()), Some(0x3f80_0000));
    assert_eq!(depth_key((-1.0f32).to_bits()), Some(-0x3f80_0000));
    assert_eq!(depth_key(f32::INFINITY.to_bits()), Some(DEPTH_INFINITY));
    assert_eq!(depth_key(f32::NEG_INFINITY.to_bits()), Some(DEPTH_NEG_INFINITY));
    assert_eq!(depth_key(f32::NAN.to_bits()), None);
    assert_eq!(depth_key(0x7f80_0001), None);
    assert_eq!(depth_key(0xffff_ffff), None);
    assert_eq!(depth_key(f32::MIN_POSITIVE.to_bits()), Some(0x0080_0000));
    assert_eq!(depth_key(1), Some(1));
    assert_eq!(depth_key(0x8000_0001), Some(-1));
}

#[test]
fn depth_keys_order_as_the_numbers_do() {
    let samples = [
        f32::NEG_INFINITY,
        f32::MIN,
        -1.0e10,
        -3.5,
        -1.0,
        -0.1,
        -1.0e-30,
        -f32::MIN_POSITIVE,
        -0.0,
        0.0,
        f32::MIN_POSITIVE,
        1.0e-30,
        0.1,
        1.0,
        3.5,
        1.0e10,
        f32::MAX,
        f32::INFINITY,
    ];
    for a in samples {
        for b in samples {
            assert_eq!(a < b, key(a) < key(b), "{} and {}", a, b);
            assert_eq!(a == b, key(a) == key(b), "{} and {}", a, b);
        }
    }
}

#[test]
fn near_plane_rejects_a_triangle_with_one_vertex_behind() {
    assert!(!near_plane_rejects(key(-1.0), key(-2.0), key(-0.5)));
    assert!(near_plane_rejects(key(-1.0), key(0.0), key(-0.5)));
    assert!(near_plane_rejects(key(-1.0), key(-2.0), key(0.25)));
    assert!(near_plane_rejects(key(3.0), key(-2.0), key(-0.5)));
    assert!(near_plane_rejects(key(-0.0), key(-2.0), key(-0.5)));
}

#[test]
fn new_buffers_are_cleared() {
    let rst = Rasterizer::new(5, 3, EmptyShader);
    assert_eq!(rst.width(), 5);
    assert_eq!(rst.height(), 3);
    assert_eq!(rst.data(), vec![0u32; 15]);
    for y in 0..3 {
        for x in 0..5 {
            assert_eq!(rst.color(x, y), Some(ZERO));
            assert_eq!(rst.depth(x, y), Some(DEPTH_NEG_INFINITY));
        }
    }
    assert_eq!(rst.color(5, 0), None);
    assert_eq!(rst.depth(0, 3), None);
}

#[test]
fn buffers_without_pixels() {
    let mut rst = Rasterizer::new(0, 7, EmptyShader);
    assert_eq!(rst.data(), Vec::<u32>::new());
    rst.set_pixel(0, 0, NEAR_COLOR);
    assert!(!rst.write_fragment(0, 0, 5, NEAR_COLOR));
    rst.draw_line((0, 0), (5, 5), NEAR_COLOR);
    rst.clear();
    assert_eq!(rst.data(), Vec::<u32>::new());
}

#[test]
fn clear_resets_every_entry() {
    let mut rst = Rasterizer::new(4, 4, NormalShader);
    rst.set_pixel(1, 1, NEAR_COLOR);
    assert!(rst.write_fragment(2, 3, key(-4.0), FAR_COLOR));
    rst.draw_line((0, 0), (3, 3), FAR_COLOR);
    rst.clear();
    for y in 0..4 {
        for x in 0..4 {
            assert_eq!(rst.color(x, y), Some(ZERO));
            assert_eq!(rst.depth(x, y), Some(DEPTH_NEG_INFINITY));
            assert_eq!(rst.depth(x, y), depth_key(f32::NEG_INFINITY.to_bits()));
        }
    }
    assert_eq!(rst.data(), vec![0u32; 16]);
}

#[test]
fn index_flips_the_rows() {
    let rst = Rasterizer::new(4, 3, EmptyShader);
    assert_eq!(rst.get_index(0, 0), 8);
    assert_eq!(rst.get_index(3, 0), 11);
    assert_eq!(rst.get_index(0, 2), 0);
    assert_eq!(rst.get_index(2, 1), 6);
}

#[test]
fn data_packs_blue_lowest() {
    let mut rst = Rasterizer::new(2, 2, EmptyShader);
    rst.set_pixel(0, 1, Bgra8 { b: 0x11, g: 0x22, r: 0x33, a: 0x44 });
    rst.set_pixel(1, 0, Bgra8 { b: 255, g: 0, r: 0, a: 0 });
    assert_eq!(rst.data(), vec![0x4433_2211, 0, 0, 0x0000_00ff]);
    assert_eq!(Bgra8 { b: 1, g: 2, r: 3, a: 4 }.to_u32(), 0x0403_0201);
    assert_eq!(Bgra8 { b: 255, g: 255, r: 255, a: 255 }.to_u32(), u32::MAX);
}

#[test]
fn set_pixel_outside_is_ignored() {
    let mut rst = Rasterizer::new(3, 2, EmptyShader);
    rst.set_pixel(3, 0, NEAR_COLOR);
    rst.set_pixel(0, 2, NEAR_COLOR);
    rst.set_pixel(usize::MAX, usize::MAX, NEAR_COLOR);
    rst.plot(-1, 0, NEAR_COLOR);
    rst.plot(0, -1, NEAR_COLOR);
    rst.plot(i64::MAX, i64::MIN, NEAR_COLOR);
    assert_eq!(rst.data(), vec![0u32; 6]);
    rst.set_pixel(2, 1, NEAR_COLOR);
    rst.plot(0, 0, FAR_COLOR);
    assert_eq!(rst.color(2, 1), Some(NEAR_COLOR));
    assert_eq!(rst.color(0, 0), Some(FAR_COLOR));
    assert_eq!(rst.depth(2, 1), Some(DEPTH_NEG_INFINITY));
}

#[test]
fn fill_span_is_clipped() {
    let mut rst = Rasterizer::new(6, 2, EmptyShader);
    rst.fill_span(1, 2, 100, NEAR_COLOR);
    rst.fill_span(0, 4, 3, FAR_COLOR);
    rst.fill_span(2, 0, 6, FAR_COLOR);
    for x in 0..6 {
        assert_eq!(rst.color(x, 1), Some(if x >= 2 { NEAR_COLOR } else { ZERO }));
        assert_eq!(rst.color(x, 0), Some(ZERO));
    }
}

#[test]
fn clamp_box_holds_bounds_to_the_last_pixel() {
    let rst = Rasterizer::new(10, 20, EmptyShader);
    assert_eq!(rst.clamp_box(3, 25, 12, 0), (3, 19, 9, 0));
    assert_eq!(rst.clamp_box(9, 19, 10, 20), (9, 19, 9, 19));
}

#[test]
fn first_fragment_passes_and_a_tie_keeps_the_first() {
    let mut rst = Rasterizer::new(3, 3, EmptyShader);
    assert!(rst.depth_test(1, 1, key(-100.0)));
    assert!(!rst.depth_test(1, 1, DEPTH_NEG_INFINITY));
    assert!(!rst.depth_test(3, 1, key(-1.0)));
    assert!(rst.write_fragment(1, 1, key(-100.0), FAR_COLOR));
    assert!(!rst.write_fragment(1, 1, key(-100.0), NEAR_COLOR));
    assert_eq!(rst.color(1, 1), Some(FAR_COLOR));
    assert_eq!(rst.depth(1, 1), Some(key(-100.0)));
    assert!(!rst.write_fragment(1, 1, key(-100.5), NEAR_COLOR));
    assert!(rst.write_fragment(1, 1, key(-99.5), NEAR_COLOR));
    assert_eq!(rst.color(1, 1), Some(NEAR_COLOR));
    assert_eq!(rst.depth(1, 1), Some(key(-99.5)));
    assert_eq!(rst.color(0, 1), Some(ZERO));
}

/// The fragments of a small triangle at one depth.
fn triangle(depth: f32) -> Vec<(usize, usize, i32)> {
    let mut fragments = Vec::new();
    for y in 1..6usize {
        for x in 1..=y {
            fragments.push((x, y, key(depth)));
        }
    }
    fragments
}

#[test]
fn nearer_triangle_wins_in_either_order() {
    let near = triangle(-2.0);
    let far = triangle(-7.5);
    let mut near_first = Rasterizer::new(8, 8, EmptyShader);
    for f in &near {
        near_first.write_fragment(f.0, f.1, f.2, NEAR_COLOR);
    }
    for f in &far {
        near_first.write_fragment(f.0, f.1, f.2, FAR_COLOR);
    }
    let mut far_first = Rasterizer::new(8, 8, EmptyShader);
    for f in &far {
        far_first.write_fragment(f.0, f.1, f.2, FAR_COLOR);
    }
    for f in &near {
        far_first.write_fragment(f.0, f.1, f.2, NEAR_COLOR);
    }
    assert_eq!(near_first.data(), far_first.data());
    for y in 0..8usize {
        for x in 0..8usize {
            let covered = (1..6).contains(&y) && x >= 1 && x <= y;
            assert_eq!(near_first.color(x, y), Some(if covered { NEAR_COLOR } else { ZERO }));
            assert_eq!(far_first.depth(x, y), Some(if covered { key(-2.0) } else { DEPTH_NEG_INFINITY }));
        }
    }
}

#[test]
fn default_color_is_zero() {
    assert_eq!(Bgra8::default(), ZERO);
    assert_eq!(Bgra8::default().to_u32(), 0);
}

#[test]
fn shader_is_carried() {
    let mut rst = Rasterizer::new(2, 2, 42u8);
    rst.clear();
    rst.set_pixel(0, 0, NEAR_COLOR);
    assert_eq!(rst.shader, 42);
    rst.shader = 7;
    assert_eq!(rst.shader, 7);
}
