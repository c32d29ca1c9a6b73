//! Shader selection and the decisions of the procedural variants.
//!
//! A scene object carries an integer selector. [`ShaderKind::from_selector`]
//! names the variant that it stands for, and [`fragment_shader`] dispatches
//! on it. What a variant computes in floating point is the caller's, behind
//! [`FragmentStage`]; what it decides by comparing a sample with a threshold
//! is stated and proved here.
use vstd::prelude::*;

use crate::color::Color;
use crate::fragment::Fragment;
use crate::raster::Sample;
use crate::scalar::Scalar;

verus! {

/// The procedural variants.
#[derive(Clone, Copy, PartialEq, Eq, Structural, Debug)]
pub enum ShaderKind {
    /// A star's surface, bright with dark spots that drift.
    Star,
    /// Rings that spread from the origin.
    Ripple,
    /// Land, desert and ocean under polar caps and clouds.
    Terrain,
    /// A grey surface with craters in three tiers of brightness.
    Craters,
    /// Cells of energy in four hard bands.
    Cellular,
    /// A grid of moving disks.
    Disks,
    /// No variant: the fragment keeps its own colour.
    PassThrough,
}

impl ShaderKind {
    /// The variant that a selector stands for. The selectors 1 and 6 both
    /// stand for the ripple, and every selector above 6 for none.
    pub open spec fn of(selector: u32) -> ShaderKind {
        if selector == 0 {
            ShaderKind::Star
        } else if selector == 1 || selector == 6 {
            ShaderKind::Ripple
        } else if selector == 2 {
            ShaderKind::Terrain
        } else if selector == 3 {
            ShaderKind::Craters
        } else if selector == 4 {
            ShaderKind::Cellular
        } else if selector == 5 {
            ShaderKind::Disks
        } else {
            ShaderKind::PassThrough
        }
    }

    #[verifier::when_used_as_spec(of)]
    pub fn from_selector(selector: u32) -> (kind: ShaderKind)
        ensures
            kind == ShaderKind::of(selector),
            kind == ShaderKind::PassThrough <==> selector > 6,
    {
        match selector {
            0 => ShaderKind::Star,
            1 => ShaderKind::Ripple,
            2 => ShaderKind::Terrain,
            3 => ShaderKind::Craters,
            4 => ShaderKind::Cellular,
            5 => ShaderKind::Disks,
            6 => ShaderKind::Ripple,
            _ => ShaderKind::PassThrough,
        }
    }
}

/// The programmable part of a draw call: the work in floating point that
/// turns a covered pixel into a fragment and a fragment into a colour.
///
/// Nothing is assumed of an implementation. Whatever it returns, the
/// functions that call it keep their contracts. What it is handed is
/// fixed: a sample whose weights can serve as those of a mean, and a
/// variant that is one.
pub trait FragmentStage {
    /// The fragment of triangle number `triangle` at `sample`, its
    /// attributes interpolated with the sample's weights.
    fn interpolate(&self, triangle: usize, sample: &Sample) -> (fragment: Fragment)
        requires
            sample.balanced(),
    ;

    /// The colour that the procedural variant `kind` gives to `fragment`.
    fn shade(&self, kind: ShaderKind, fragment: &Fragment) -> (color: Color)
        requires
            kind != ShaderKind::PassThrough,
    ;
}

/// Whether `fragment` is a fragment that the stage may return for `sample`
/// of triangle number `triangle`.
pub open spec fn interpolates<S: FragmentStage>(
    stage: &S,
    triangle: usize,
    sample: Sample,
    fragment: Fragment,
) -> bool {
    call_ensures(S::interpolate, (stage, triangle, &sample), fragment)
}

/// Whether `color` is a colour that the stage may return for `fragment`
/// under the variant `kind`.
pub open spec fn shades<S: FragmentStage>(
    stage: &S,
    kind: ShaderKind,
    fragment: Fragment,
    color: Color,
) -> bool {
    call_ensures(S::shade, (stage, kind, &fragment), color)
}

/// Whether `color` is a colour of `fragment` under the selector `selector`:
/// the fragment's own where the selector stands for no variant, and else
/// one that the stage may return for the variant.
pub open spec fn shaded_as<S: FragmentStage>(
    stage: &S,
    fragment: Fragment,
    selector: u32,
    color: Color,
) -> bool {
    if ShaderKind::of(selector) == ShaderKind::PassThrough {
        color == fragment.color
    } else {
        shades(stage, ShaderKind::of(selector), fragment, color)
    }
}

/// Shades one fragment with the variant that `current_shader` selects. A
/// selector that stands for no variant returns the fragment's own base
/// colour unchanged; every other colour is what the stage returns for the
/// variant.
pub fn fragment_shader<S: FragmentStage>(fragment: &Fragment, stage: &S, current_shader: u32) -> (color:
    Color)
    ensures
        shaded_as(stage, *fragment, current_shader, color),
        ShaderKind::of(current_shader) == ShaderKind::PassThrough ==> color == fragment.color,
        current_shader > 6 ==> color == fragment.color,
{
    let kind = ShaderKind::from_selector(current_shader);
    match kind {
        ShaderKind::PassThrough => fragment.color,
        _ => stage.shade(kind, fragment),
    }
}

/// The pattern of `0.6`: the noise level at which a star's surface turns
/// from bright to dark, and above which clouds form over terrain.
pub const SPOT_THRESHOLD: u32 = 0x3F19_999A;

/// The pattern of `0.7`: the latitude beyond which terrain lies under snow.
pub const SNOW_THRESHOLD: u32 = 0x3F33_3333;

/// The pattern of `0.4`: the noise level above which terrain is land.
pub const LAND_THRESHOLD: u32 = 0x3ECC_CCCD;

/// The pattern of `0.3`: the noise level above which terrain is desert.
pub const DESERT_THRESHOLD: u32 = 0x3E99_999A;

/// The pattern of `0.2`: the upper end of the first band of energy.
pub const ENERGY_LOW: u32 = 0x3E4C_CCCD;

/// The pattern of `0.5`: the upper end of the second band of energy.
pub const ENERGY_MIDDLE: u32 = 0x3F00_0000;

/// The pattern of `0.8`: the upper end of the third band of energy.
pub const ENERGY_HIGH: u32 = 0x3F4C_CCCD;

/// The pattern of `0.1`: the radius of a disk of the grid.
pub const DISK_RADIUS: u32 = 0x3DCC_CCCD;

/// The colour that a star's surface is blended towards: bright yellow
/// where the noise is below the spot threshold, dark red elsewhere, a NaN
/// included.
pub open spec fn star_accent_spec(noise: Scalar) -> Color {
    if noise.lt_spec(Scalar { bits: SPOT_THRESHOLD }) {
        Color { r: 255, g: 255, b: 102 }
    } else {
        Color { r: 139, g: 0, b: 0 }
    }
}

#[verifier::when_used_as_spec(star_accent_spec)]
pub fn star_accent(noise: Scalar) -> (color: Color)
    ensures
        color == star_accent_spec(noise),
{
    if noise.less_than(Scalar::from_bits(SPOT_THRESHOLD)) {
        Color::new(255, 255, 102)
    } else {
        Color::new(139, 0, 0)
    }
}

/// The band of a piece of terrain: snow where the latitude, taken without
/// its sign, lies beyond the snow threshold; else land, desert or ocean as
/// the surface noise lies above the land threshold, above the desert
/// threshold, or below both.
pub open spec fn terrain_band_spec(latitude: Scalar, surface: Scalar) -> Color {
    if latitude.abs_spec().gt_spec(Scalar { bits: SNOW_THRESHOLD }) {
        Color { r: 255, g: 250, b: 250 }
    } else if surface.gt_spec(Scalar { bits: LAND_THRESHOLD }) {
        Color { r: 34, g: 139, b: 34 }
    } else if surface.gt_spec(Scalar { bits: DESERT_THRESHOLD }) {
        Color { r: 210, g: 180, b: 140 }
    } else {
        Color { r: 0, g: 105, b: 148 }
    }
}

#[verifier::when_used_as_spec(terrain_band_spec)]
pub fn terrain_band(latitude: Scalar, surface: Scalar) -> (color: Color)
    ensures
        color == terrain_band_spec(latitude, surface),
{
    if latitude.abs().greater_than(Scalar::from_bits(SNOW_THRESHOLD)) {
        Color::new(255, 250, 250)
    } else if surface.greater_than(Scalar::from_bits(LAND_THRESHOLD)) {
        Color::new(34, 139, 34)
    } else if surface.greater_than(Scalar::from_bits(DESERT_THRESHOLD)) {
        Color::new(210, 180, 140)
    } else {
        Color::new(0, 105, 148)
    }
}

/// What lies over a piece of terrain: a cloud, white, where the cloud noise
/// exceeds the spot threshold, and the blue of the sky elsewhere. The flag
/// tells the two apart.
pub open spec fn overlay_spec(cloud_noise: Scalar) -> (bool, Color) {
    if cloud_noise.gt_spec(Scalar { bits: SPOT_THRESHOLD }) {
        (true, Color { r: 255, g: 255, b: 255 })
    } else {
        (false, Color { r: 135, g: 206, b: 250 })
    }
}

#[verifier::when_used_as_spec(overlay_spec)]
pub fn overlay(cloud_noise: Scalar) -> (layer: (bool, Color))
    ensures
        layer == overlay_spec(cloud_noise),
{
    if cloud_noise.greater_than(Scalar::from_bits(SPOT_THRESHOLD)) {
        (true, Color::new(255, 255, 255))
    } else {
        (false, Color::new(135, 206, 250))
    }
}

/// The tier of a cratered surface: grey where the noise exceeds
/// `threshold`, brighter where it exceeds `lower` only, brightest
/// elsewhere.
pub open spec fn crater_tier_spec(noise: Scalar, threshold: Scalar, lower: Scalar) -> Color {
    if noise.gt_spec(threshold) {
        Color { r: 200, g: 200, b: 200 }
    } else if noise.gt_spec(lower) {
        Color { r: 220, g: 220, b: 220 }
    } else {
        Color { r: 250, g: 250, b: 250 }
    }
}

#[verifier::when_used_as_spec(crater_tier_spec)]
pub fn crater_tier(noise: Scalar, threshold: Scalar, lower: Scalar) -> (color: Color)
    ensures
        color == crater_tier_spec(noise, threshold, lower),
{
    if noise.greater_than(threshold) {
        Color::new(200, 200, 200)
    } else if noise.greater_than(lower) {
        Color::new(220, 220, 220)
    } else {
        Color::new(250, 250, 250)
    }
}

/// The band of energy of a cell: one of four colours, from red to pale
/// yellow, as the noise, taken without its sign, lies below the low, the
/// middle or the high threshold, or below none of them.
pub open spec fn energy_band_spec(noise: Scalar) -> Color {
    let level = noise.abs_spec();
    if level.lt_spec(Scalar { bits: ENERGY_LOW }) {
        Color { r: 255, g: 69, b: 0 }
    } else if level.lt_spec(Scalar { bits: ENERGY_MIDDLE }) {
        Color { r: 255, g: 140, b: 0 }
    } else if level.lt_spec(Scalar { bits: ENERGY_HIGH }) {
        Color { r: 255, g: 215, b: 0 }
    } else {
        Color { r: 255, g: 255, b: 153 }
    }
}

#[verifier::when_used_as_spec(energy_band_spec)]
pub fn energy_band(noise: Scalar) -> (color: Color)
    ensures
        color == energy_band_spec(noise),
{
    let level = noise.abs();
    if level.less_than(Scalar::from_bits(ENERGY_LOW)) {
        Color::new(255, 69, 0)
    } else if level.less_than(Scalar::from_bits(ENERGY_MIDDLE)) {
        Color::new(255, 140, 0)
    } else if level.less_than(Scalar::from_bits(ENERGY_HIGH)) {
        Color::new(255, 215, 0)
    } else {
        Color::new(255, 255, 153)
    }
}

/// Whether one of the distances is less than the radius of a disk.
pub open spec fn within_disk(distances: Seq<Scalar>) -> bool {
    exists|k: int|
        0 <= k < distances.len() && (#[trigger] distances[k]).lt_spec(Scalar { bits: DISK_RADIUS })
}

/// The colour of a fragment on the grid of disks, from its distances to
/// the centres of the disks: black inside a disk, white outside all of
/// them.
pub fn disk_color(distances: &Vec<Scalar>) -> (color: Color)
    ensures
        color == if within_disk(distances@) {
            Color { r: 0, g: 0, b: 0 }
        } else {
            Color { r: 255, g: 255, b: 255 }
        },
{
    let radius = Scalar::from_bits(DISK_RADIUS);
    let mut k: usize = 0;
    while k < distances.len()
        invariant
            k <= distances.len(),
            radius.bits == DISK_RADIUS,
            forall|l: int| 0 <= l < k ==> !(#[trigger] distances[l]).lt_spec(radius),
        decreases distances.len() - k,
    {
        if distances[k].less_than(radius) {
            return Color::new(0, 0, 0);
        }
        k += 1;
    }
    Color::new(255, 255, 255)
}

/// Advances a shader selector to the next of `total_shaders` variants,
/// returning to the first after the last.
pub fn switch_shader(current_shader: &mut u32, total_shaders: u32)
    requires
        total_shaders > 0,
    ensures
        *final(current_shader) == (*old(current_shader) + 1) % (total_shaders as int),
        *final(current_shader) < total_shaders,
{
    let next: u64 = (*current_shader as u64 + 1) % (total_shaders as u64);
    *current_shader = next as u32;
}

} // verus!
