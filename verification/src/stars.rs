//! A field of stars behind the scene.
use rand::rngs::ThreadRng;
use rand::Rng;
use vstd::prelude::*;

use crate::frame::{Frame, WHITE};
use crate::framebuffer::Framebuffer;
use crate::scalar::Scalar;

verus! {

/// `rand::rngs::ThreadRng`, the generator that each thread owns. Nothing
/// is known of its state.
#[verifier::external_type_specification]
#[verifier::external_body]
pub struct ExThreadRng(ThreadRng);

/// `rand::thread_rng` hands out the calling thread's generator. Nothing is
/// claimed of it.
pub assume_specification[ rand::thread_rng ]() -> (rng: ThreadRng);

/// `Rng::gen_range` on the range from zero up to `bound`, `bound` left out.
/// The number drawn lies in the range; which one it is, is not said. An
/// empty range makes `gen_range` panic, so `bound` must not be zero.
#[verifier::external_body]
fn draw_below(rng: &mut ThreadRng, bound: usize) -> (n: usize)
    requires
        bound > 0,
    ensures
        n < bound,
{
    rng.gen_range(0..bound)
}

/// Scatters `count` stars over a `width` by `height` raster, each at a
/// position drawn at random. Every star lies on the raster.
pub fn generate_stars(count: usize, width: usize, height: usize) -> (stars: Vec<(usize, usize)>)
    requires
        count > 0 ==> width > 0 && height > 0,
    ensures
        stars.len() == count,
        forall|k: int| 0 <= k < stars.len() ==> (#[trigger] stars[k]).0 < width && stars[k].1 < height,
{
    let mut rng = rand::thread_rng();
    let mut stars: Vec<(usize, usize)> = Vec::new();
    let mut k: usize = 0;
    while k < count
        invariant
            k <= count,
            count > 0 ==> width > 0 && height > 0,
            stars.len() == k,
            forall|l: int|
                0 <= l < stars.len() ==> (#[trigger] stars[l]).0 < width && stars[l].1 < height,
        decreases count - k,
    {
        let x = draw_below(&mut rng, width);
        let y = draw_below(&mut rng, height);
        stars.push((x, y));
        k += 1;
    }
    stars
}

/// Sets the drawing colour to white and draws the stars, each as one white
/// pixel at depth one: behind everything that is nearer, before nothing
/// that was drawn at that depth or nearer.
pub fn draw_stars(framebuffer: &mut Framebuffer, stars: &Vec<(usize, usize)>)
    requires
        old(framebuffer).wf(),
    ensures
        final(framebuffer).wf(),
        final(framebuffer)@ == (Frame { current: WHITE, ..old(framebuffer)@ }).starred(stars@),
{
    framebuffer.set_current_color(WHITE);
    let ghost start = framebuffer@;
    let width = framebuffer.width();
    let mut k: usize = 0;
    while k < stars.len()
        invariant
            k <= stars.len(),
            start.wf(),
            framebuffer.wf(),
            width == start.width,
            framebuffer@ == start.starred(stars@.take(k as int)),
        decreases stars.len() - k,
    {
        let (x, y) = stars[k];
        proof {
            let next = stars@.take(k + 1);
            assert(next.drop_last() =~= stars@.take(k as int));
            assert(next.last() == stars@[k as int]);
        }
        let ghost before = framebuffer@;
        let row: Option<usize> = y.checked_mul(width);
        let index: Option<usize> = match row {
            Some(first) => first.checked_add(x),
            None => None,
        };
        match index {
            Some(index) => {
                framebuffer.set_color_at_index(index, WHITE, Scalar::one());
            },
            None => {
                proof {
                    lemma_starred_size(start, stars@.take(k as int));
                    assert(y * width + x > usize::MAX);
                }
            },
        }
        k += 1;
    }
    proof {
        assert(stars@.take(stars.len() as int) =~= stars@);
    }
}

/// Setting stars changes neither the size of a frame nor its invariant.
pub proof fn lemma_starred_size(frame: Frame, stars: Seq<(usize, usize)>)
    requires
        frame.wf(),
    ensures
        frame.starred(stars).wf(),
        frame.starred(stars).width == frame.width,
        frame.starred(stars).height == frame.height,
    decreases stars.len(),
{
    if stars.len() > 0 {
        lemma_starred_size(frame, stars.drop_last());
    }
}

} // verus!
