use soft_renderer::color::Color;
use soft_renderer::fragment::Fragment;
use soft_renderer::framebuffer::Framebuffer;
use soft_renderer::raster::Sample;
use soft_renderer::scalar::{Scalar, Vector3};
use soft_renderer::shaders::{
    crater_tier, disk_color, energy_band, fragment_shader, overlay, star_accent, switch_shader,
    terrain_band, FragmentStage, ShaderKind, DESERT_THRESHOLD, DISK_RADIUS, ENERGY_HIGH, ENERGY_LOW,
    ENERGY_MIDDLE, LAND_THRESHOLD, SNOW_THRESHOLD, SPOT_THRESHOLD,
};
use soft_renderer::stars::{draw_stars, generate_stars};

fn s(value: f32) -> Scalar {
    Scalar::from_bits(value.to_bits())
}

fn fragment(color: Color) -> Fragment {
    let zero = Vector3::new(s(0.0), s(0.0), s(0.0));
    Fragment {
        x: 3,
        y: 4,
        depth: s(0.5),
        normal: zero,
        vertex_position: Vector3::new(s(0.25), s(-0.5), s(1.0)),
        color,
        intensity: s(0.75),
    }
}

/// A stage whose colours tell which variant was asked for.
struct Marker;

impl FragmentStage for Marker {
    fn interpolate(&self, _triangle: usize, sample: &Sample) -> Fragment {
        let mut f = fragment(Color::new(1, 2, 3));
        f.x = sample.x;
        f.y = sample.y;
        f
    }

    fn shade(&self, kind: ShaderKind, fragment: &Fragment) -> Color {
        let tag = match kind {
            ShaderKind::Star => 10,
            ShaderKind::Ripple => 11,
            ShaderKind::Terrain => 12,
            ShaderKind::Craters => 13,
            ShaderKind::Cellular => 14,
            ShaderKind::Disks => 15,
            ShaderKind::PassThrough => 16,
        };
        Color::new(tag, fragment.color.g, 0)
    }
}

#[test]
fn selectors_name_their_variants() {
    assert_eq!(ShaderKind::from_selector(0), ShaderKind::Star);
    assert_eq!(ShaderKind::from_selector(1), ShaderKind::Ripple);
    assert_eq!(ShaderKind::from_selector(2), ShaderKind::Terrain);
    assert_eq!(ShaderKind::from_selector(3), ShaderKind::Craters);
    assert_eq!(ShaderKind::from_selector(4), ShaderKind::Cellular);
    assert_eq!(ShaderKind::from_selector(5), ShaderKind::Disks);
    assert_eq!(ShaderKind::from_selector(6), ShaderKind::Ripple);
    assert_eq!(ShaderKind::from_selector(7), ShaderKind::PassThrough);
    assert_eq!(ShaderKind::from_selector(1000), ShaderKind::PassThrough);
    assert_eq!(ShaderKind::from_selector(u32::MAX), ShaderKind::PassThrough);
}

#[test]
fn known_selectors_reach_the_stage() {
    let f = fragment(Color::new(1, 2, 3));
    let tags: Vec<u8> = (0..7).map(|sel| fragment_shader(&f, &Marker, sel).r).collect();
    assert_eq!(tags, vec![10, 11, 12, 13, 14, 15, 11]);
    assert_eq!(fragment_shader(&f, &Marker, 4), Color::new(14, 2, 0));
}

#[test]
fn unknown_selector_passes_the_base_colour_through() {
    for &sel in &[7u32, 8, 100, 0xFFFF, u32::MAX] {
        for &color in &[Color::new(1, 2, 3), Color::new(0, 0, 0), Color::new(255, 255, 255)] {
            assert_eq!(fragment_shader(&fragment(color), &Marker, sel), color);
        }
    }
}

#[test]
fn shading_twice_gives_the_same_colour() {
    let f = fragment(Color::new(9, 8, 7));
    for sel in 0..12 {
        assert_eq!(fragment_shader(&f, &Marker, sel), fragment_shader(&f, &Marker, sel));
    }
    for &n in &[-1.0f32, -0.3, 0.0, 0.19, 0.2, 0.45, 0.6, 0.61, 0.9] {
        assert_eq!(star_accent(s(n)), star_accent(s(n)));
        assert_eq!(energy_band(s(n)), energy_band(s(n)));
        assert_eq!(terrain_band(s(n), s(n)), terrain_band(s(n), s(n)));
        assert_eq!(overlay(s(n)), overlay(s(n)));
    }
}

#[test]
fn switch_shader_cycles() {
    let mut current = 0u32;
    let mut seen = Vec::new();
    for _ in 0..9 {
        switch_shader(&mut current, 7);
        seen.push(current);
    }
    assert_eq!(seen, vec![1, 2, 3, 4, 5, 6, 0, 1, 2]);
    let mut one = 0u32;
    switch_shader(&mut one, 1);
    assert_eq!(one, 0);
    let mut high = 41u32;
    switch_shader(&mut high, 7);
    assert_eq!(high, 0);
    let mut top = u32::MAX;
    switch_shader(&mut top, 7);
    assert_eq!(top as u64, (u32::MAX as u64 + 1) % 7);
    let mut wide = u32::MAX - 1;
    switch_shader(&mut wide, u32::MAX);
    assert_eq!(wide, 0);
}

#[test]
fn thresholds_have_their_patterns() {
    assert_eq!(SPOT_THRESHOLD, 0.6f32.to_bits());
    assert_eq!(SNOW_THRESHOLD, 0.7f32.to_bits());
    assert_eq!(LAND_THRESHOLD, 0.4f32.to_bits());
    assert_eq!(DESERT_THRESHOLD, 0.3f32.to_bits());
    assert_eq!(ENERGY_LOW, 0.2f32.to_bits());
    assert_eq!(ENERGY_MIDDLE, 0.5f32.to_bits());
    assert_eq!(ENERGY_HIGH, 0.8f32.to_bits());
    assert_eq!(DISK_RADIUS, 0.1f32.to_bits());
}

#[test]
fn star_turns_dark_at_the_spot_threshold() {
    let bright = Color::new(255, 255, 102);
    let dark = Color::new(139, 0, 0);
    assert_eq!(star_accent(s(-1.0)), bright);
    assert_eq!(star_accent(s(0.0)), bright);
    assert_eq!(star_accent(s(0.59)), bright);
    assert_eq!(star_accent(s(0.6)), dark);
    assert_eq!(star_accent(s(0.95)), dark);
    assert_eq!(star_accent(s(f32::NAN)), dark);
}

#[test]
fn terrain_bands() {
    let snow = Color::new(255, 250, 250);
    let land = Color::new(34, 139, 34);
    let desert = Color::new(210, 180, 140);
    let ocean = Color::new(0, 105, 148);
    assert_eq!(terrain_band(s(0.71), s(0.9)), snow);
    assert_eq!(terrain_band(s(-0.71), s(-0.9)), snow);
    assert_eq!(terrain_band(s(0.7), s(0.41)), land);
    assert_eq!(terrain_band(s(-0.7), s(0.4)), desert);
    assert_eq!(terrain_band(s(0.0), s(0.31)), desert);
    assert_eq!(terrain_band(s(0.0), s(0.3)), ocean);
    assert_eq!(terrain_band(s(0.2), s(-0.5)), ocean);
    assert_eq!(terrain_band(s(f32::NAN), s(0.5)), land);
    assert_eq!(terrain_band(s(0.0), s(f32::NAN)), ocean);
}

#[test]
fn overlay_turns_to_cloud_above_the_threshold() {
    assert_eq!(overlay(s(0.61)), (true, Color::new(255, 255, 255)));
    assert_eq!(overlay(s(0.6)), (false, Color::new(135, 206, 250)));
    assert_eq!(overlay(s(-0.2)), (false, Color::new(135, 206, 250)));
    assert_eq!(overlay(s(f32::NAN)), (false, Color::new(135, 206, 250)));
}

#[test]
fn crater_tiers() {
    let t = 0.4f32;
    assert_eq!(crater_tier(s(0.5), s(t), s(t - 0.1)), Color::new(200, 200, 200));
    assert_eq!(crater_tier(s(0.4), s(t), s(t - 0.1)), Color::new(220, 220, 220));
    assert_eq!(crater_tier(s(0.35), s(t), s(t - 0.1)), Color::new(220, 220, 220));
    assert_eq!(crater_tier(s(t - 0.1), s(t), s(t - 0.1)), Color::new(250, 250, 250));
    assert_eq!(crater_tier(s(-0.8), s(t), s(t - 0.1)), Color::new(250, 250, 250));
    assert_eq!(crater_tier(s(f32::NAN), s(t), s(t - 0.1)), Color::new(250, 250, 250));
    assert_eq!(crater_tier(s(0.9), s(f32::NAN), s(0.3)), Color::new(220, 220, 220));
}

#[test]
fn energy_bands() {
    let bands = [
        Color::new(255, 69, 0),
        Color::new(255, 140, 0),
        Color::new(255, 215, 0),
        Color::new(255, 255, 153),
    ];
    assert_eq!(energy_band(s(0.0)), bands[0]);
    assert_eq!(energy_band(s(-0.19)), bands[0]);
    assert_eq!(energy_band(s(0.2)), bands[1]);
    assert_eq!(energy_band(s(-0.49)), bands[1]);
    assert_eq!(energy_band(s(0.5)), bands[2]);
    assert_eq!(energy_band(s(-0.79)), bands[2]);
    assert_eq!(energy_band(s(0.8)), bands[3]);
    assert_eq!(energy_band(s(-1.0)), bands[3]);
    assert_eq!(energy_band(s(f32::NAN)), bands[3]);
}

#[test]
fn disks_are_black_inside_and_white_outside() {
    let black = Color::new(0, 0, 0);
    let white = Color::new(255, 255, 255);
    assert_eq!(disk_color(&vec![]), white);
    assert_eq!(disk_color(&vec![s(0.5), s(0.1), s(2.0)]), white);
    assert_eq!(disk_color(&vec![s(0.5), s(0.099), s(2.0)]), black);
    assert_eq!(disk_color(&vec![s(0.0)]), black);
    assert_eq!(disk_color(&vec![s(f32::NAN), s(0.3)]), white);
    assert_eq!(disk_color(&vec![s(0.3), s(0.3), s(0.05)]), black);
}

#[test]
fn stars_lie_on_the_raster() {
    let stars = generate_stars(500, 5, 7);
    assert_eq!(stars.len(), 500);
    for &(x, y) in &stars {
        assert!(x < 5 && y < 7);
    }
    let narrow = generate_stars(50, 1, 1);
    assert!(narrow.iter().all(|&star| star == (0, 0)));
    assert!(generate_stars(0, 0, 0).is_empty());
    assert!(generate_stars(0, 800, 600).is_empty());
}

#[test]
fn stars_are_spread() {
    let stars = generate_stars(2000, 4, 4);
    for y in 0..4 {
        for x in 0..4 {
            assert!(stars.contains(&(x, y)));
        }
    }
}

#[test]
fn stars_are_white_pixels_at_depth_one() {
    let mut fb = Framebuffer::new(4, 3);
    fb.set_current_color(0x123456);
    fb.set_color_at_index(5, 0x77, s(0.5));
    fb.set_color_at_index(6, 0x88, s(1.5));
    draw_stars(&mut fb, &vec![(0, 0), (1, 1), (2, 1), (3, 2), (5, 0), (0, 3), (9, 9)]);
    assert_eq!(fb.get_current_color(), 0xFFFFFF);
    let w = 0xFFFFFFu32;
    assert_eq!(fb.get_write_buffer(), &[w, 0, 0, 0, 0, 0x77, w, 0, 0, 0, 0, w][..]);
    let depths: Vec<f32> = fb.get_depth_buffer().iter().map(|d| f32::from_bits(d.to_bits())).collect();
    let inf = f32::INFINITY;
    assert_eq!(depths, vec![1.0, inf, inf, inf, inf, 0.5, 1.0, inf, inf, inf, inf, 1.0]);
}

#[test]
fn star_with_an_index_beyond_the_machine_is_dropped() {
    let mut fb = Framebuffer::new(4, 3);
    draw_stars(&mut fb, &vec![(1, usize::MAX), (usize::MAX, 2), (usize::MAX, usize::MAX)]);
    assert!(fb.get_write_buffer().iter().all(|&c| c == 0));
}
