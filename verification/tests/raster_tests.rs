use soft_renderer::color::Color;
use soft_renderer::fragment::Fragment;
use soft_renderer::framebuffer::Framebuffer;
use soft_renderer::raster::{triangle, Sample, ScreenPoint, SUBPIXEL};
use soft_renderer::render::{render, shade_samples};
use soft_renderer::scalar::{Scalar, Vector3};
use soft_renderer::shaders::{FragmentStage, ShaderKind};

fn at(x: i32, y: i32) -> ScreenPoint {
    ScreenPoint { x: x * SUBPIXEL, y: y * SUBPIXEL }
}

fn scalar(value: f32) -> Scalar {
    Scalar::from_bits(value.to_bits())
}

fn depth_at(fb: &Framebuffer, x: usize, y: usize) -> f32 {
    f32::from_bits(fb.get_depth_buffer()[y * fb.width() + x].to_bits())
}

fn color_at(fb: &Framebuffer, x: usize, y: usize) -> u32 {
    fb.get_write_buffer()[y * fb.width() + x]
}

/// A stage that gives each triangle a depth at each of its vertices and
/// one colour, and interpolates the depth with the weights of the sample.
struct Plain {
    depths: Vec<[f32; 3]>,
    colors: Vec<Color>,
    shaded: Color,
}

impl FragmentStage for Plain {
    fn interpolate(&self, triangle: usize, sample: &Sample) -> Fragment {
        let z = self.depths[triangle];
        let sum = (sample.w0 + sample.w1 + sample.w2) as f32;
        let depth = (sample.w0 as f32 * z[0] + sample.w1 as f32 * z[1] + sample.w2 as f32 * z[2]) / sum;
        let zero = Vector3::new(scalar(0.0), scalar(0.0), scalar(0.0));
        Fragment {
            x: sample.x,
            y: sample.y,
            depth: scalar(depth),
            normal: zero,
            vertex_position: zero,
            color: self.colors[triangle],
            intensity: scalar(1.0),
        }
    }

    fn shade(&self, _kind: ShaderKind, _fragment: &Fragment) -> Color {
        self.shaded
    }
}

fn positions(samples: &[Sample]) -> Vec<(usize, usize)> {
    samples.iter().map(|s| (s.x, s.y)).collect()
}

#[test]
fn triangle_covers_its_closed_region() {
    let samples = triangle(&at(10, 10), &at(20, 10), &at(10, 20), 30, 30);
    let mut want = Vec::new();
    for y in 0..30usize {
        for x in 0..30usize {
            if x >= 10 && y >= 10 && x + y <= 30 {
                want.push((x, y));
            }
        }
    }
    assert_eq!(want.len(), 66);
    assert_eq!(positions(&samples), want);
}

#[test]
fn winding_makes_no_difference_to_coverage() {
    let one = triangle(&at(10, 10), &at(20, 10), &at(10, 20), 30, 30);
    let other = triangle(&at(10, 10), &at(10, 20), &at(20, 10), 30, 30);
    let third = triangle(&at(10, 20), &at(10, 10), &at(20, 10), 30, 30);
    assert_eq!(positions(&one), positions(&other));
    assert_eq!(positions(&one), positions(&third));
}

#[test]
fn weights_are_edge_functions() {
    let samples = triangle(&at(0, 0), &at(4, 0), &at(0, 4), 8, 8);
    let unit = (SUBPIXEL as i128) * (SUBPIXEL as i128);
    let area = 16 * unit;
    assert_eq!(samples.len(), 15);
    for s in &samples {
        assert_eq!(s.w0 + s.w1 + s.w2, area);
        assert_eq!(s.w1, 4 * unit * s.x as i128);
        assert_eq!(s.w2, 4 * unit * s.y as i128);
        assert!(s.w0 >= 0 && s.w1 >= 0 && s.w2 >= 0);
    }
    assert_eq!(samples[0], Sample { x: 0, y: 0, w0: area, w1: 0, w2: 0 });
    let back = triangle(&at(0, 0), &at(0, 4), &at(4, 0), 8, 8);
    for s in &back {
        assert_eq!(s.w0 + s.w1 + s.w2, -area);
        assert!(s.w0 <= 0 && s.w1 <= 0 && s.w2 <= 0);
    }
}

#[test]
fn triangle_without_area_covers_nothing() {
    assert!(triangle(&at(1, 1), &at(5, 5), &at(9, 9), 30, 30).is_empty());
    assert!(triangle(&at(3, 3), &at(3, 3), &at(3, 3), 30, 30).is_empty());
    assert!(triangle(&at(3, 3), &at(3, 3), &at(7, 9), 30, 30).is_empty());
}

#[test]
fn triangle_is_cut_at_the_raster() {
    let samples = triangle(&at(-5, -5), &at(40, -5), &at(-5, 40), 4, 3);
    let mut want = Vec::new();
    for y in 0..3usize {
        for x in 0..4usize {
            want.push((x, y));
        }
    }
    assert_eq!(positions(&samples), want);
    assert!(triangle(&at(10, 10), &at(20, 10), &at(10, 20), 5, 5).is_empty());
    assert!(triangle(&at(-20, -20), &at(-10, -20), &at(-20, -10), 30, 30).is_empty());
    assert!(triangle(&at(1, 1), &at(5, 1), &at(1, 5), 0, 0).is_empty());
}

#[test]
fn triangle_between_the_samples_covers_nothing() {
    let a = ScreenPoint { x: 17, y: 17 };
    let b = ScreenPoint { x: 30, y: 17 };
    let c = ScreenPoint { x: 17, y: 30 };
    assert!(triangle(&a, &b, &c, 10, 10).is_empty());
    let d = ScreenPoint { x: 16, y: 16 };
    assert_eq!(positions(&triangle(&d, &b, &c, 10, 10)), vec![(1, 1)]);
}

#[test]
fn triangle_with_extreme_corners_does_not_overflow() {
    let a = ScreenPoint { x: i32::MAX, y: i32::MAX };
    let b = ScreenPoint { x: i32::MIN, y: i32::MAX };
    let c = ScreenPoint { x: i32::MAX, y: i32::MIN };
    let samples = triangle(&a, &b, &c, 3, 2);
    assert_eq!(positions(&samples), vec![(0, 0), (1, 0), (2, 0), (0, 1), (1, 1), (2, 1)]);
    let side = (1i128 << 32) - 1;
    for s in &samples {
        assert!(s.w0 > 0 && s.w1 > 0 && s.w2 > 0);
        assert_eq!(s.w0 + s.w1 + s.w2, side * side);
    }
    assert_eq!(samples[0].w0, side);
    // The same corners mirrored leave the origin just outside.
    let d = ScreenPoint { x: i32::MIN, y: i32::MIN };
    assert!(triangle(&d, &b, &c, 3, 2).is_empty());
}

#[test]
fn shade_samples_keeps_pixels_and_order() {
    let stage = Plain {
        depths: vec![[0.0; 3], [0.25, 0.25, 0.25]],
        colors: vec![Color::new(0, 0, 0), Color::new(1, 2, 3)],
        shaded: Color::new(9, 9, 9),
    };
    let samples = triangle(&at(0, 0), &at(2, 0), &at(0, 2), 4, 4);
    let passed = shade_samples(&stage, 1, &samples, 7);
    assert_eq!(passed.len(), samples.len());
    for (p, s) in passed.iter().zip(samples.iter()) {
        assert_eq!((p.x, p.y), (s.x, s.y));
        assert_eq!(p.color, 0x010203);
        assert_eq!(f32::from_bits(p.depth.to_bits()), 0.25);
    }
    let shaded = shade_samples(&stage, 1, &samples, 0);
    for p in &shaded {
        assert_eq!(p.color, 0x090909);
    }
}

#[test]
fn single_triangle_writes_exactly_its_region() {
    let mut fb = Framebuffer::new(30, 30);
    let stage = Plain {
        depths: vec![[0.5, 0.5, 0.5]],
        colors: vec![Color::new(0x10, 0x20, 0x30)],
        shaded: Color::new(0, 0, 0xEE),
    };
    render(&mut fb, &stage, &vec![at(10, 10), at(20, 10), at(10, 20)], 7);
    for y in 0..30usize {
        for x in 0..30usize {
            if x >= 10 && y >= 10 && x + y <= 30 {
                assert_eq!(depth_at(&fb, x, y), 0.5, "({}, {})", x, y);
                assert_eq!(color_at(&fb, x, y), 0x102030);
            } else {
                assert_eq!(depth_at(&fb, x, y), f32::INFINITY, "({}, {})", x, y);
                assert_eq!(color_at(&fb, x, y), 0);
            }
        }
    }
}

#[test]
fn nearer_triangle_overwrites_only_the_overlap() {
    let mut fb = Framebuffer::new(30, 30);
    let first = Plain {
        depths: vec![[0.5, 0.5, 0.5]],
        colors: vec![Color::new(0x10, 0x20, 0x30)],
        shaded: Color::new(0, 0, 0xEE),
    };
    render(&mut fb, &first, &vec![at(10, 10), at(20, 10), at(10, 20)], 7);
    let second = Plain {
        depths: vec![[0.3, 0.3, 0.3]],
        colors: vec![Color::new(0xAA, 0xBB, 0xCC)],
        shaded: Color::new(0, 0, 0xEE),
    };
    render(&mut fb, &second, &vec![at(15, 15), at(25, 15), at(15, 25)], 7);
    let mut overlap = 0;
    for y in 0..30usize {
        for x in 0..30usize {
            let in_first = x >= 10 && y >= 10 && x + y <= 30;
            let in_second = x >= 15 && y >= 15 && x + y <= 40;
            if in_second {
                assert_eq!(depth_at(&fb, x, y), 0.3, "({}, {})", x, y);
                assert_eq!(color_at(&fb, x, y), 0xAABBCC);
                if in_first {
                    overlap += 1;
                }
            } else if in_first {
                assert_eq!(depth_at(&fb, x, y), 0.5, "({}, {})", x, y);
                assert_eq!(color_at(&fb, x, y), 0x102030);
            } else {
                assert_eq!(depth_at(&fb, x, y), f32::INFINITY, "({}, {})", x, y);
                assert_eq!(color_at(&fb, x, y), 0);
            }
        }
    }
    assert_eq!(overlap, 1);
}

#[test]
fn farther_triangle_does_not_overwrite() {
    let mut fb = Framebuffer::new(30, 30);
    let stage = Plain {
        depths: vec![[0.3, 0.3, 0.3], [0.5, 0.5, 0.5]],
        colors: vec![Color::new(1, 1, 1), Color::new(2, 2, 2)],
        shaded: Color::new(0, 0, 0xEE),
    };
    let mesh = vec![at(10, 10), at(20, 10), at(10, 20), at(10, 10), at(20, 10), at(10, 20)];
    render(&mut fb, &stage, &mesh, 99);
    for y in 10..=20usize {
        for x in 10..=(30 - y) {
            assert_eq!(depth_at(&fb, x, y), 0.3);
            assert_eq!(color_at(&fb, x, y), 0x010101);
        }
    }
}

#[test]
fn trailing_vertices_are_dropped() {
    let stage = Plain {
        depths: vec![[0.5, 0.5, 0.5]],
        colors: vec![Color::new(1, 1, 1)],
        shaded: Color::new(0, 0, 0xEE),
    };
    let mut fb = Framebuffer::new(8, 8);
    render(&mut fb, &stage, &vec![at(0, 0), at(7, 0)], 7);
    assert!(fb.get_write_buffer().iter().all(|&c| c == 0));
    render(&mut fb, &stage, &vec![], 7);
    assert!(fb.get_write_buffer().iter().all(|&c| c == 0));
    render(&mut fb, &stage, &vec![at(0, 0), at(2, 0), at(0, 2), at(5, 5), at(7, 5)], 7);
    let written = fb.get_write_buffer().iter().filter(|&&c| c != 0).count();
    assert_eq!(written, 6);
    assert_eq!(color_at(&fb, 5, 5), 0);
}

#[test]
fn depth_is_interpolated_along_the_weights() {
    let stage = Plain {
        depths: vec![[0.0, 1.0, 0.0]],
        colors: vec![Color::new(1, 1, 1)],
        shaded: Color::new(0, 0, 0xEE),
    };
    let mut fb = Framebuffer::new(16, 16);
    render(&mut fb, &stage, &vec![at(0, 0), at(8, 0), at(0, 8)], 7);
    assert_eq!(depth_at(&fb, 0, 0), 0.0);
    assert_eq!(depth_at(&fb, 4, 0), 0.5);
    assert_eq!(depth_at(&fb, 8, 0), 1.0);
    assert_eq!(depth_at(&fb, 2, 3), 0.25);
    assert_eq!(depth_at(&fb, 0, 8), 0.0);
}

#[test]
fn render_draws_into_the_write_target_only() {
    let stage = Plain {
        depths: vec![[0.5, 0.5, 0.5]],
        colors: vec![Color::new(1, 1, 1)],
        shaded: Color::new(0, 0, 0xEE),
    };
    let mut fb = Framebuffer::new(8, 8);
    fb.set_color_at_index(0, 0x77, scalar(0.9));
    fb.switch_buffers();
    fb.clear();
    let shown: Vec<u32> = fb.get_active_buffer().to_vec();
    render(&mut fb, &stage, &vec![at(0, 0), at(7, 0), at(0, 7)], 3);
    assert_eq!(fb.get_active_buffer(), &shown[..]);
    assert_eq!(color_at(&fb, 0, 0), 0x0000EE);
    assert_eq!(fb.get_background_color(), 0);
    assert_eq!(fb.get_current_color(), 0xFFFFFF);
}

#[test]
fn black_fragments_leave_the_pixel_alone() {
    let stage = Plain {
        depths: vec![[0.5, 0.5, 0.5]],
        colors: vec![Color::new(0, 0, 0)],
        shaded: Color::new(0, 0, 0xEE),
    };
    let mut fb = Framebuffer::new(8, 8);
    render(&mut fb, &stage, &vec![at(0, 0), at(7, 0), at(0, 7)], 7);
    assert!(fb.get_write_buffer().iter().all(|&c| c == 0));
    assert_eq!(depth_at(&fb, 1, 1), f32::INFINITY);
}

#[test]
fn channel_is_the_rounded_weighted_mean() {
    let sample = Sample { x: 0, y: 0, w0: 1, w1: 1, w2: 2 };
    assert!(sample.is_balanced());
    assert_eq!(sample.blend_channel(0, 0, 0), 0);
    assert_eq!(sample.blend_channel(255, 255, 255), 255);
    assert_eq!(sample.blend_channel(100, 200, 0), 75);
    assert_eq!(sample.blend_channel(0, 0, 255), 128);
    assert_eq!(sample.blend_channel(1, 0, 0), 0);
    assert_eq!(sample.blend_channel(2, 0, 0), 1);
    assert_eq!(sample.blend_channel(3, 0, 0), 1);
    assert_eq!(sample.blend_channel(10, 20, 30), 23);
    let back = Sample { x: 0, y: 0, w0: -1, w1: -1, w2: -2 };
    assert!(back.is_balanced());
    assert_eq!(back.blend_channel(100, 200, 0), 75);
    assert_eq!(back.blend_channel(10, 20, 30), 23);
    let corner = Sample { x: 0, y: 0, w0: 0, w1: 7, w2: 0 };
    assert_eq!(corner.blend_channel(9, 77, 200), 77);
}

#[test]
fn colour_is_blended_channel_by_channel() {
    let sample = Sample { x: 5, y: 6, w0: 2, w1: 1, w2: 1 };
    let red = Color::new(255, 0, 0);
    let green = Color::new(0, 255, 0);
    let blue = Color::new(0, 0, 255);
    assert_eq!(sample.blend_color(red, green, blue), Color::new(128, 64, 64));
    assert_eq!(sample.blend_color(red, red, red), red);
    let grey = Color::new(100, 100, 100);
    assert_eq!(sample.blend_color(grey, grey, grey), grey);
}

#[test]
fn weights_of_mixed_sign_are_not_balanced() {
    assert!(!Sample { x: 0, y: 0, w0: 1, w1: -1, w2: 2 }.is_balanced());
    assert!(!Sample { x: 0, y: 0, w0: 0, w1: 0, w2: 0 }.is_balanced());
    assert!(!Sample { x: 0, y: 0, w0: i128::MAX, w1: 1, w2: 1 }.is_balanced());
    assert!(!Sample { x: 0, y: 0, w0: i128::MIN, w1: -1, w2: -1 }.is_balanced());
    assert!(Sample { x: 0, y: 0, w0: 0, w1: 0, w2: 1 }.is_balanced());
}

#[test]
fn samples_of_a_triangle_are_balanced() {
    let big = triangle(
        &ScreenPoint { x: i32::MAX, y: i32::MAX },
        &ScreenPoint { x: i32::MIN, y: i32::MAX },
        &ScreenPoint { x: i32::MAX, y: i32::MIN },
        4,
        4,
    );
    assert_eq!(big.len(), 16);
    for s in &big {
        assert!(s.is_balanced());
        assert_eq!(s.blend_channel(40, 40, 40), 40);
    }
    for s in &triangle(&at(0, 0), &at(0, 6), &at(6, 0), 8, 8) {
        assert!(s.is_balanced());
        let v = s.blend_channel(0, 60, 120);
        assert_eq!(v as usize, 10 * s.y + 20 * s.x);
    }
}

fn edge(a: (i128, i128), b: (i128, i128), p: (i128, i128)) -> i128 {
    (b.0 - a.0) * (p.1 - a.1) - (b.1 - a.1) * (p.0 - a.0)
}

fn expected(a: ScreenPoint, b: ScreenPoint, c: ScreenPoint, width: usize, height: usize) -> Vec<Sample> {
    let (pa, pb, pc) = (
        (a.x as i128, a.y as i128),
        (b.x as i128, b.y as i128),
        (c.x as i128, c.y as i128),
    );
    let area = edge(pa, pb, pc);
    let mut found = Vec::new();
    for y in 0..height {
        for x in 0..width {
            let p = (x as i128 * SUBPIXEL as i128, y as i128 * SUBPIXEL as i128);
            let (w0, w1, w2) = (edge(pb, pc, p), edge(pc, pa, p), edge(pa, pb, p));
            let inside = (area > 0 && w0 >= 0 && w1 >= 0 && w2 >= 0)
                || (area < 0 && w0 <= 0 && w1 <= 0 && w2 <= 0);
            if inside {
                found.push(Sample { x, y, w0, w1, w2 });
            }
        }
    }
    found
}

#[test]
fn triangle_agrees_with_the_edge_functions() {
    let mut state: u64 = 0x2545_F491_4F6C_DD1D;
    let mut next = move |span: i32| -> i32 {
        state ^= state << 13;
        state ^= state >> 7;
        state ^= state << 17;
        (state % (span as u64)) as i32
    };
    for round in 0..300 {
        let wide = if round % 3 == 0 { 4000 } else { 400 };
        let point = |next: &mut dyn FnMut(i32) -> i32| ScreenPoint {
            x: next(wide) - wide / 4,
            y: next(wide) - wide / 4,
        };
        let a = point(&mut next);
        let b = point(&mut next);
        let c = point(&mut next);
        let (width, height) = (13, 11);
        assert_eq!(triangle(&a, &b, &c, width, height), expected(a, b, c, width, height));
    }
}
