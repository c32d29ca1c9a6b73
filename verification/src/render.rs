//! Drawing a mesh: triangles are formed, rasterised, shaded and composited.
use vstd::prelude::*;

use crate::color::Color;
use crate::fragment::{Fragment, Shaded};
use crate::frame::{
    lemma_composited_append, lemma_composited_within, lemma_drawn_chain, lemma_stamp_extend,
    lemma_stamp_nothing, lemma_stamp_same, Frame,
};
use crate::framebuffer::Framebuffer;
use crate::raster::{
    coverage_of, covers, precedes, sample_of, samples_hold, triangle, Sample, ScreenPoint,
};
use crate::scalar::Scalar;
use crate::shaders::{fragment_shader, interpolates, shaded_as, FragmentStage};

verus! {

/// The number of triangles that a list of `count` vertices forms: the
/// vertices are taken three at a time, and what is left over is dropped.
pub open spec fn triangle_count(count: nat) -> int {
    count as int / 3
}

/// Whether triangle number `t` of the vertex list covers pixel `(px, py)`.
pub open spec fn triangle_covers(vertices: Seq<ScreenPoint>, t: int, px: int, py: int) -> bool {
    covers(vertices[3 * t], vertices[3 * t + 1], vertices[3 * t + 2], px, py)
}

/// Whether one of the first `count` triangles of the vertex list covers
/// pixel `(px, py)`.
pub open spec fn covered(vertices: Seq<ScreenPoint>, count: int, px: int, py: int) -> bool {
    exists|t: int| 0 <= t < count && #[trigger] triangle_covers(vertices, t, px, py)
}

/// The pixels that the first `count` triangles cover, as a region.
pub open spec fn covered_region(vertices: Seq<ScreenPoint>, count: int) -> spec_fn(int, int) -> bool {
    |px: int, py: int| covered(vertices, count, px, py)
}

/// The pixels that a triangle covers, as a mask.
pub open spec fn coverage_mask(a: ScreenPoint, b: ScreenPoint, c: ScreenPoint) -> spec_fn(
    int,
    int,
) -> bool {
    |px: int, py: int| covers(a, b, c, px, py)
}

/// The pixels of the first `n` samples, as a mask.
pub open spec fn sampled_mask(samples: Seq<Sample>, n: int) -> spec_fn(int, int) -> bool {
    |px: int, py: int| samples_hold(samples.take(n), px, py)
}

/// Whether `shaded` gives each sample of `samples`, in their order, the
/// colour `color` and the depth `depth`.
pub open spec fn flat(shaded: Seq<Shaded>, samples: Seq<Sample>, color: u32, depth: Scalar) -> bool {
    &&& shaded.len() == samples.len()
    &&& forall|k: int|
        0 <= k < shaded.len() ==> #[trigger] shaded[k] == (Shaded {
            x: samples[k].x,
            y: samples[k].y,
            color,
            depth,
        })
}

proof fn lemma_flat_prefix(
    frame: Frame,
    samples: Seq<Sample>,
    shaded: Seq<Shaded>,
    a: ScreenPoint,
    b: ScreenPoint,
    c: ScreenPoint,
    color: u32,
    depth: Scalar,
    n: int,
)
    requires
        frame.wf(),
        coverage_of(samples, a, b, c, frame.width as int, frame.height as int),
        flat(shaded, samples, color, depth),
        0 <= n <= samples.len(),
    ensures
        frame.composited(shaded.take(n)) == frame.stamp(sampled_mask(samples, n), color, depth),
    decreases n,
{
    let mask = sampled_mask(samples, n);
    if n == 0 {
        lemma_stamp_nothing(frame, mask, color, depth);
    } else {
        lemma_flat_prefix(frame, samples, shaded, a, b, c, color, depth, n - 1);
        let k = n - 1;
        let before = sampled_mask(samples, k);
        let x = samples[k].x as int;
        let y = samples[k].y as int;
        assert(shaded.take(n).drop_last() =~= shaded.take(k));
        assert(shaded.take(n).last() == shaded[k]);
        assert(!before(x, y)) by {
            if samples_hold(samples.take(k), x, y) {
                let j = choose|j: int|
                    0 <= j < samples.take(k).len() && (#[trigger] samples.take(k)[j]).x == x
                        && samples.take(k)[j].y == y;
                assert(samples.take(k)[j] == samples[j]);
                assert(precedes(
                    samples[j].x as int,
                    samples[j].y as int,
                    samples[k].x as int,
                    samples[k].y as int,
                ));
            }
        }
        assert forall|px: int, py: int| #[trigger] mask(px, py) <==> (before(px, py) || (px == x
            && py == y)) by {
            if samples_hold(samples.take(n), px, py) {
                let j = choose|j: int|
                    0 <= j < samples.take(n).len() && (#[trigger] samples.take(n)[j]).x == px
                        && samples.take(n)[j].y == py;
                assert(samples.take(n)[j] == samples[j]);
                if j < k {
                    assert(samples.take(k)[j] == samples[j]);
                }
            }
            if samples_hold(samples.take(k), px, py) {
                let j = choose|j: int|
                    0 <= j < samples.take(k).len() && (#[trigger] samples.take(k)[j]).x == px
                        && samples.take(k)[j].y == py;
                assert(samples.take(n)[j] == samples[j]);
                assert(samples.take(k)[j] == samples[j]);
            }
            if px == x && py == y {
                assert(samples.take(n)[k] == samples[k]);
            }
        }
        lemma_stamp_extend(frame, before, mask, x, y, color, depth);
    }
}

/// A triangle drawn in one colour at one depth marks exactly its closed
/// region.
///
/// Let `samples` be the coverage of a triangle on the raster of a frame,
/// and let each sample become a fragment of colour `color` at depth
/// `depth`. Compositing these fragments is one depth-tested write of that
/// colour and depth to each pixel that the triangle covers, and to no
/// other. On a cleared frame every write at a finite depth takes effect, so
/// that the covered pixels, and only they, then hold `color` at `depth`; on
/// a frame drawn before, the pixels that were nearer keep what they held.
pub proof fn lemma_flat_triangle(
    frame: Frame,
    samples: Seq<Sample>,
    shaded: Seq<Shaded>,
    a: ScreenPoint,
    b: ScreenPoint,
    c: ScreenPoint,
    color: u32,
    depth: Scalar,
)
    requires
        frame.wf(),
        coverage_of(samples, a, b, c, frame.width as int, frame.height as int),
        flat(shaded, samples, color, depth),
    ensures
        frame.composited(shaded) == frame.stamp(coverage_mask(a, b, c), color, depth),
{
    let n = samples.len() as int;
    lemma_flat_prefix(frame, samples, shaded, a, b, c, color, depth, n);
    assert(shaded.take(n) =~= shaded);
    assert(samples.take(n) =~= samples);
    assert forall|px: int, py: int| frame.contains(px, py) implies (#[trigger] sampled_mask(
        samples,
        n,
    )(px, py) <==> #[trigger] coverage_mask(a, b, c)(px, py)) by {
        if samples_hold(samples, px, py) {
            let j = choose|j: int|
                0 <= j < samples.len() && (#[trigger] samples[j]).x == px && samples[j].y == py;
            assert(sample_of(samples[j], a, b, c, frame.width as int, frame.height as int));
        }
        if covers(a, b, c, px, py) {
            assert(samples_hold(samples, px, py));
        }
    }
    lemma_stamp_same(frame, sampled_mask(samples, n), coverage_mask(a, b, c), color, depth);
}

/// Whether `shaded` is what the stage may make of `sample` of triangle
/// number `triangle` under the selector `selector`: it lies at the pixel of
/// the sample, its depth is that of a fragment that the stage may return
/// for the sample, and its colour is, packed, a colour of that fragment
/// under the selector.
pub open spec fn shaded_from<S: FragmentStage>(
    stage: &S,
    triangle: usize,
    sample: Sample,
    selector: u32,
    shaded: Shaded,
) -> bool {
    exists|fragment: Fragment, color: Color|
        {
            &&& #[trigger] interpolates(stage, triangle, sample, fragment)
            &&& #[trigger] shaded_as(stage, fragment, selector, color)
            &&& shaded.x == sample.x
            &&& shaded.y == sample.y
            &&& shaded.color == color.hex()
            &&& shaded.depth == fragment.depth
        }
}

/// Whether `shaded` is what the stage may make of the samples of triangle
/// number `triangle`: one fragment for each sample, in their order.
pub open spec fn triangle_log<S: FragmentStage>(
    stage: &S,
    triangle: usize,
    samples: Seq<Sample>,
    selector: u32,
    shaded: Seq<Shaded>,
) -> bool {
    &&& shaded.len() == samples.len()
    &&& forall|k: int|
        0 <= k < shaded.len() ==> shaded_from(stage, triangle, samples[k], selector, #[trigger] shaded[k])
}

/// Whether `shaded` is what the stage may make of triangle number `t` of
/// the vertex list on a `width` by `height` raster, and `samples` the
/// coverage of that triangle.
pub open spec fn step_log<S: FragmentStage>(
    stage: &S,
    vertices: Seq<ScreenPoint>,
    selector: u32,
    width: int,
    height: int,
    t: int,
    samples: Seq<Sample>,
    shaded: Seq<Shaded>,
) -> bool {
    &&& coverage_of(samples, vertices[3 * t], vertices[3 * t + 1], vertices[3 * t + 2], width, height)
    &&& triangle_log(stage, t as usize, samples, selector, shaded)
}

/// Whether `log` is what the stage may make of the first `count` triangles
/// of the vertex list on a `width` by `height` raster: for each triangle in
/// turn, what it may make of the triangle's coverage.
pub open spec fn scene_log<S: FragmentStage>(
    stage: &S,
    vertices: Seq<ScreenPoint>,
    selector: u32,
    width: int,
    height: int,
    count: int,
    log: Seq<Shaded>,
) -> bool
    decreases count,
{
    if count <= 0 {
        log.len() == 0
    } else {
        exists|n: int, samples: Seq<Sample>|
            {
                &&& 0 <= n <= log.len()
                &&& scene_log(stage, vertices, selector, width, height, count - 1, log.take(n))
                &&& #[trigger] step_log(
                    stage,
                    vertices,
                    selector,
                    width,
                    height,
                    count - 1,
                    samples,
                    log.skip(n),
                )
            }
    }
}

/// A log grows triangle by triangle: what the stage may make of the first
/// `t` triangles, followed by what it may make of triangle number `t`, is
/// what it may make of the first `t + 1`.
pub proof fn lemma_scene_log_grows<S: FragmentStage>(
    stage: &S,
    vertices: Seq<ScreenPoint>,
    selector: u32,
    width: int,
    height: int,
    t: int,
    log: Seq<Shaded>,
    samples: Seq<Sample>,
    shaded: Seq<Shaded>,
)
    requires
        0 <= t,
        scene_log(stage, vertices, selector, width, height, t, log),
        step_log(stage, vertices, selector, width, height, t, samples, shaded),
    ensures
        scene_log(stage, vertices, selector, width, height, t + 1, log + shaded),
{
    let longer = log + shaded;
    let n = log.len() as int;
    let count = t + 1;
    assert(longer.take(n) =~= log);
    assert(longer.skip(n) =~= shaded);
    assert(step_log(stage, vertices, selector, width, height, count - 1, samples, longer.skip(n)));
}

/// Turns the samples of triangle number `triangle` into shaded fragments,
/// one for each sample and at its pixel, in the same order. Colour and depth
/// are what the stage makes of the sample. The samples are those of a
/// triangle: their weights can serve as those of a mean.
pub fn shade_samples<S: FragmentStage>(
    stage: &S,
    triangle: usize,
    samples: &Vec<Sample>,
    current_shader: u32,
) -> (shaded: Vec<Shaded>)
    requires
        forall|k: int| 0 <= k < samples.len() ==> (#[trigger] samples[k]).balanced(),
    ensures
        shaded.len() == samples.len(),
        forall|k: int|
            0 <= k < shaded.len() ==> (#[trigger] shaded[k]).x == samples[k].x && shaded[k].y
                == samples[k].y,
        triangle_log(stage, triangle, samples@, current_shader, shaded@),
{
    let mut shaded: Vec<Shaded> = Vec::new();
    let mut k: usize = 0;
    while k < samples.len()
        invariant
            k <= samples.len(),
            shaded.len() == k,
            forall|l: int| 0 <= l < samples.len() ==> (#[trigger] samples[l]).balanced(),
            forall|l: int|
                0 <= l < shaded.len() ==> (#[trigger] shaded[l]).x == samples[l].x && shaded[l].y
                    == samples[l].y,
            forall|l: int|
                0 <= l < shaded.len() ==> shaded_from(
                    stage,
                    triangle,
                    samples[l],
                    current_shader,
                    #[trigger] shaded[l],
                ),
        decreases samples.len() - k,
    {
        let sample = &samples[k];
        let fragment = stage.interpolate(triangle, sample);
        let color = fragment_shader(&fragment, stage, current_shader);
        let hex = color.to_hex();
        shaded.push(Shaded { x: sample.x, y: sample.y, color: hex, depth: fragment.depth });
        proof {
            assert(interpolates(stage, triangle, samples[k as int], fragment));
            assert(shaded_as(stage, fragment, current_shader, color));
            assert(shaded_from(stage, triangle, samples[k as int], current_shader, shaded[k as int]));
        }
        k += 1;
    }
    shaded
}

/// Draws a mesh into the write target of `framebuffer`.
///
/// The vertices, already in screen space, form triangles three at a time;
/// a trailing group of one or two is dropped. Each triangle is rasterised
/// on the raster of the framebuffer, each covered pixel becomes a fragment
/// that `stage` fills in and the shader that `current_shader` selects
/// colours, and the fragments are composited under the depth test.
///
/// The frame that results is the frame before with a log of fragments
/// composited onto it, and the log is what the stage makes of the coverage
/// of the triangles, one triangle after another. Whatever the stage
/// returns, a pixel therefore changes only where one of the triangles
/// covers it, only to a depth strictly nearer than before, and never to the
/// empty colour.
pub fn render<S: FragmentStage>(
    framebuffer: &mut Framebuffer,
    stage: &S,
    vertices: &Vec<ScreenPoint>,
    current_shader: u32,
)
    requires
        old(framebuffer).wf(),
    ensures
        final(framebuffer).wf(),
        exists|log: Seq<Shaded>|
            {
                &&& #[trigger] scene_log(
                    stage,
                    vertices@,
                    current_shader,
                    old(framebuffer)@.width as int,
                    old(framebuffer)@.height as int,
                    triangle_count(vertices@.len()),
                    log,
                )
                &&& final(framebuffer)@ == old(framebuffer)@.composited(log)
            },
        old(framebuffer)@.drawn_within(
            final(framebuffer)@,
            covered_region(vertices@, triangle_count(vertices@.len())),
        ),
{
    let width = framebuffer.width();
    let height = framebuffer.height();
    let count: usize = vertices.len() / 3;
    let mut t: usize = 0;
    let ghost mut log: Seq<Shaded> = Seq::empty();
    while t < count
        invariant
            t <= count,
            count == triangle_count(vertices@.len()),
            3 * count <= vertices.len(),
            width == framebuffer@.width,
            height == framebuffer@.height,
            framebuffer.wf(),
            scene_log(stage, vertices@, current_shader, width as int, height as int, t as int, log),
            framebuffer@ == old(framebuffer)@.composited(log),
            old(framebuffer)@.drawn_within(framebuffer@, covered_region(vertices@, t as int)),
        decreases count - t,
    {
        let a = &vertices[3 * t];
        let b = &vertices[3 * t + 1];
        let c = &vertices[3 * t + 2];
        let samples = triangle(a, b, c, width, height);
        let shaded = shade_samples(stage, t, &samples, current_shader);
        let ghost before = framebuffer@;
        let ghost this = |px: int, py: int| triangle_covers(vertices@, t as int, px, py);
        framebuffer.composite(&shaded);
        proof {
            lemma_composited_append(old(framebuffer)@, log, shaded@);
            lemma_scene_log_grows(
                stage,
                vertices@,
                current_shader,
                width as int,
                height as int,
                t as int,
                log,
                samples@,
                shaded@,
            );
            log = log + shaded@;
            assert forall|k: int| 0 <= k < shaded.len() implies this(
                (#[trigger] shaded@[k]).x as int,
                shaded@[k].y as int,
            ) by {
                assert(shaded@[k].x == samples@[k].x && shaded@[k].y == samples@[k].y);
            }
            lemma_composited_within(before, shaded@, this);
            assert forall|px: int, py: int| #[trigger] this(px, py) implies covered_region(
                vertices@,
                t + 1,
            )(px, py) by {
                assert(triangle_covers(vertices@, t as int, px, py));
            }
            assert forall|px: int, py: int| #[trigger]
                covered_region(vertices@, t as int)(px, py) implies covered_region(vertices@, t + 1)(
                px,
                py,
            ) by {
                let u = choose|u: int| 0 <= u < t && #[trigger] triangle_covers(vertices@, u, px, py);
                assert(triangle_covers(vertices@, u, px, py));
            }
            lemma_drawn_chain(
                old(framebuffer)@,
                old(framebuffer)@,
                before,
                covered_region(vertices@, t as int),
                covered_region(vertices@, t + 1),
            );
            lemma_drawn_chain(
                old(framebuffer)@,
                before,
                framebuffer@,
                this,
                covered_region(vertices@, t + 1),
            );
        }
        t += 1;
    }
}

} // verus!
