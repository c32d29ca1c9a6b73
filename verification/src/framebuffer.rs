//! A double-buffered raster target with a depth test.
use vstd::prelude::*;

use crate::color::EMPTY;
use crate::fragment::Shaded;
use crate::frame::{
    lemma_pixel_index, lemma_stamp_extend, lemma_stamp_nothing, lemma_stamp_same, Frame, WHITE,
};
use crate::line::{
    length, lemma_line_progress, lemma_line_step, lemma_line_unique, line_mask, line_prefix, nearest,
    on_line, progress, span,
};
use crate::scalar::Scalar;

verus! {

/// Two pixel arrays and one depth array over a `width` by `height` raster.
pub struct Framebuffer {
    width: usize,
    height: usize,
    buffer1: Vec<u32>,
    buffer2: Vec<u32>,
    zbuffer: Vec<Scalar>,
    background_color: u32,
    current_color: u32,
    /// Whether `buffer1` is the write target.
    active_buffer: bool,
}

impl View for Framebuffer {
    type V = Frame;

    closed spec fn view(&self) -> Frame {
        Frame {
            width: self.width as nat,
            height: self.height as nat,
            target: if self.active_buffer {
                self.buffer1@
            } else {
                self.buffer2@
            },
            shown: if self.active_buffer {
                self.buffer2@
            } else {
                self.buffer1@
            },
            depth: self.zbuffer@,
            background: self.background_color,
            current: self.current_color,
        }
    }
}

impl Framebuffer {
    /// The invariant of the type: see [`Frame::wf`].
    pub open spec fn wf(&self) -> bool {
        self@.wf()
    }

    /// A black raster of `width` by `height` pixels with nothing drawn: every
    /// depth infinitely far, background black, drawing colour white.
    pub fn new(width: usize, height: usize) -> (fb: Framebuffer)
        requires
            width * height <= usize::MAX,
        ensures
            fb.wf(),
            fb@.width == width,
            fb@.height == height,
            fb@.background == 0,
            fb@.current == WHITE,
            fb@.target == Seq::new(fb@.len(), |i: int| 0u32),
            fb@.shown == Seq::new(fb@.len(), |i: int| 0u32),
            fb@.depth == Seq::new(fb@.len(), |i: int| Scalar::infinity_spec()),
    {
        let size: usize = width * height;
        let fb = Framebuffer {
            width,
            height,
            buffer1: vec![0u32; size],
            buffer2: vec![0u32; size],
            zbuffer: vec![Scalar::infinity(); size],
            background_color: 0,
            current_color: WHITE,
            active_buffer: true,
        };
        assert(fb@.target =~= Seq::new(fb@.len(), |i: int| 0u32));
        assert(fb@.shown =~= Seq::new(fb@.len(), |i: int| 0u32));
        assert(fb@.depth =~= Seq::new(fb@.len(), |i: int| Scalar::infinity_spec()));
        fb
    }

    pub fn width(&self) -> (w: usize)
        ensures
            w == self@.width,
    {
        self.width
    }

    pub fn height(&self) -> (h: usize)
        ensures
            h == self@.height,
    {
        self.height
    }

    /// Writes `color` to pixel `index` of the write target if the pixel
    /// exists, `depth` is strictly nearer than what is stored there and
    /// `color` is not the empty colour; the stored depth becomes `depth`.
    /// Otherwise nothing changes.
    pub fn set_color_at_index(&mut self, index: usize, color: u32, depth: Scalar)
        requires
            old(self).wf(),
        ensures
            final(self).wf(),
            final(self)@ == old(self)@.write(index as int, color, depth),
    {
        if index < self.zbuffer.len() && depth.less_than(self.zbuffer[index]) {
            if color != EMPTY {
                if self.active_buffer {
                    self.buffer1.set(index, color);
                } else {
                    self.buffer2.set(index, color);
                }
                self.zbuffer.set(index, depth);
            }
        }
    }

    /// Draws the pixel `(x, y)` in the current colour at depth zero, under
    /// the depth test. A position off the raster is dropped.
    pub fn draw_point(&mut self, x: usize, y: usize)
        requires
            old(self).wf(),
        ensures
            final(self).wf(),
            final(self)@ == old(self)@.plot(
                x as int,
                y as int,
                old(self)@.current,
                Scalar::zero_spec(),
            ),
    {
        if x < self.width && y < self.height {
            proof {
                lemma_pixel_index(self.width as int, self.height as int, x as int, y as int);
            }
            let index: usize = y * self.width + x;
            self.set_color_at_index(index, self.current_color, Scalar::zero());
        }
    }

    /// Draws the digital line from `(x1, y1)` to `(x2, y2)`, both ends
    /// included, in the current colour at depth zero, under the depth test.
    /// The part of the line that lies off the raster is dropped.
    pub fn draw_line(&mut self, x1: usize, y1: usize, x2: usize, y2: usize)
        requires
            old(self).wf(),
        ensures
            final(self).wf(),
            final(self)@ == old(self)@.stamp(
                line_mask(x1 as int, y1 as int, x2 as int, y2 as int),
                old(self)@.current,
                Scalar::zero_spec(),
            ),
    {
        let dx: i128 = if x1 < x2 {
            (x2 - x1) as i128
        } else {
            (x1 - x2) as i128
        };
        let dy: i128 = if y1 < y2 {
            -((y2 - y1) as i128)
        } else {
            -((y1 - y2) as i128)
        };
        let sx: i128 = if x1 < x2 {
            1
        } else {
            -1
        };
        let sy: i128 = if y1 < y2 {
            1
        } else {
            -1
        };
        let mut err: i128 = dx + dy;
        let mut x: i128 = x1 as i128;
        let mut y: i128 = y1 as i128;

        let ghost a: int = span(x1 as int, x2 as int);
        let ghost b: int = span(y1 as int, y2 as int);
        let ghost mut i: int = 0;
        let ghost mut j: int = 0;
        let ghost mut e: int = 0;
        let ghost mut t: int = 0;
        let ghost start = self@;
        let ghost color = self@.current;
        proof {
            assert(0 * a - 0 * b == 0);
            lemma_stamp_nothing(
                start,
                line_prefix(x1 as int, y1 as int, x2 as int, y2 as int, 0),
                color,
                Scalar::zero_spec(),
            );
        }
        loop
            invariant_except_break
                self@ == start.stamp(
                    line_prefix(x1 as int, y1 as int, x2 as int, y2 as int, t),
                    color,
                    Scalar::zero_spec(),
                ),
            invariant
                start == old(self)@,
                start.wf(),
                color == start.current,
                self@.current == color,
                self.wf(),
                a == span(x1 as int, x2 as int),
                b == span(y1 as int, y2 as int),
                dx == a,
                dy == -b,
                sx == if x1 < x2 { 1int } else { -1int },
                sy == if y1 < y2 { 1int } else { -1int },
                x == if x1 < x2 { x1 + i } else { x1 - i },
                y == if y1 < y2 { y1 + j } else { y1 - j },
                0 <= i <= a,
                0 <= j <= b,
                e == j * a - i * b,
                nearest(a, b, 2 * e),
                err == e + a - b,
                t == if a >= b { i } else { j },
            ensures
                self@ == start.stamp(
                    line_mask(x1 as int, y1 as int, x2 as int, y2 as int),
                    color,
                    Scalar::zero_spec(),
                ),
            decreases length(x1 as int, y1 as int, x2 as int, y2 as int) - t,
        {
            let ghost before = self@;
            if x >= 0 && x < self.width as i128 && y >= 0 && y < self.height as i128 {
                proof {
                    lemma_pixel_index(self.width as int, self.height as int, x as int, y as int);
                }
                let index: usize = y as usize * self.width + x as usize;
                self.set_color_at_index(index, self.current_color, Scalar::zero());
            }
            proof {
                let x1 = x1 as int;
                let y1 = y1 as int;
                let x2 = x2 as int;
                let y2 = y2 as int;
                assert(self@ == before.plot(x as int, y as int, color, Scalar::zero_spec()));
                assert(on_line(x1, y1, x2, y2, x as int, y as int));
                assert(progress(x1, y1, x2, y2, x as int, y as int) == t);
                assert forall|px: int, py: int| #[trigger]
                    line_prefix(x1, y1, x2, y2, t + 1)(px, py) <==> (line_prefix(x1, y1, x2, y2, t)(
                        px,
                        py,
                    ) || (px == x && py == y)) by {
                    if on_line(x1, y1, x2, y2, px, py) && progress(x1, y1, x2, y2, px, py) == t {
                        lemma_line_unique(x1, y1, x2, y2, px, py, x as int, y as int);
                    }
                }
                lemma_stamp_extend(
                    start,
                    line_prefix(x1, y1, x2, y2, t),
                    line_prefix(x1, y1, x2, y2, t + 1),
                    x as int,
                    y as int,
                    color,
                    Scalar::zero_spec(),
                );
            }

            if x == x2 as i128 && y == y2 as i128 {
                proof {
                    let x1 = x1 as int;
                    let y1 = y1 as int;
                    let x2 = x2 as int;
                    let y2 = y2 as int;
                    assert(i == a && j == b);
                    assert forall|px: int, py: int|
                        start.contains(px, py) implies (#[trigger] line_prefix(x1, y1, x2, y2, t + 1)(
                        px,
                        py,
                    ) <==> #[trigger] line_mask(x1, y1, x2, y2)(px, py)) by {
                        if on_line(x1, y1, x2, y2, px, py) {
                            lemma_line_progress(x1, y1, x2, y2, px, py);
                        }
                    }
                    lemma_stamp_same(
                        start,
                        line_prefix(x1, y1, x2, y2, t + 1),
                        line_mask(x1, y1, x2, y2),
                        color,
                        Scalar::zero_spec(),
                    );
                }
                break ;
            }
            proof {
                let next = lemma_line_step(a, b, i, j, e);
                i = next.0;
                j = next.1;
                e = next.2;
                t = t + 1;
            }
            let e2: i128 = 2 * err;
            if e2 >= dy {
                err += dy;
                x += sx;
            }
            if e2 <= dx {
                err += dx;
                y += sy;
            }
        }
    }

    /// Plots the fragments of `fragments` in their order: each goes to its
    /// pixel under the depth test, and one that lies off the raster is
    /// dropped.
    pub fn composite(&mut self, fragments: &Vec<Shaded>)
        requires
            old(self).wf(),
        ensures
            final(self).wf(),
            final(self)@ == old(self)@.composited(fragments@),
    {
        let mut k: usize = 0;
        while k < fragments.len()
            invariant
                k <= fragments.len(),
                self.wf(),
                self@ == old(self)@.composited(fragments@.take(k as int)),
            decreases fragments.len() - k,
        {
            let fragment = fragments[k];
            proof {
                let next = fragments@.take(k + 1);
                assert(next.drop_last() =~= fragments@.take(k as int));
                assert(next.last() == fragment);
            }
            if fragment.x < self.width && fragment.y < self.height {
                proof {
                    lemma_pixel_index(
                        self.width as int,
                        self.height as int,
                        fragment.x as int,
                        fragment.y as int,
                    );
                }
                let index: usize = fragment.y * self.width + fragment.x;
                self.set_color_at_index(index, fragment.color, fragment.depth);
            }
            k += 1;
        }
        proof {
            assert(fragments@.take(fragments.len() as int) =~= fragments@);
        }
    }

    /// Resets the write target to the background colour and every depth to
    /// infinitely far. The shown array is not touched.
    pub fn clear(&mut self)
        requires
            old(self).wf(),
        ensures
            final(self).wf(),
            final(self)@ == old(self)@.cleared(),
    {
        let n: usize = self.zbuffer.len();
        let mut i: usize = 0;
        while i < n
            invariant
                i <= n,
                n == self.zbuffer.len(),
                self.buffer1.len() == n,
                self.buffer2.len() == n,
                self.width == old(self).width,
                self.height == old(self).height,
                self.background_color == old(self).background_color,
                self.current_color == old(self).current_color,
                self.active_buffer == old(self).active_buffer,
                self@.shown == old(self)@.shown,
                n == old(self)@.len(),
                self.active_buffer ==> forall|j: int|
                    0 <= j < i ==> #[trigger] self.buffer1@[j] == self.background_color,
                !self.active_buffer ==> forall|j: int|
                    0 <= j < i ==> #[trigger] self.buffer2@[j] == self.background_color,
                forall|j: int| 0 <= j < i ==> #[trigger] self.zbuffer@[j] == Scalar::infinity_spec(),
                forall|j: int| i <= j < n ==> !(#[trigger] self.zbuffer@[j]).is_nan_spec(),
            decreases n - i,
        {
            if self.active_buffer {
                self.buffer1.set(i, self.background_color);
            } else {
                self.buffer2.set(i, self.background_color);
            }
            self.zbuffer.set(i, Scalar::infinity());
            i += 1;
        }
        assert(self@.target =~= old(self)@.cleared().target);
        assert(self@.depth =~= old(self)@.cleared().depth);
    }

    /// The pixel array that is ready to be presented: the one that draws do
    /// not go to.
    pub fn get_active_buffer(&self) -> (pixels: &[u32])
        ensures
            pixels@ == self@.shown,
    {
        if self.active_buffer {
            self.buffer2.as_slice()
        } else {
            self.buffer1.as_slice()
        }
    }

    /// The pixel array that draws go to.
    pub fn get_write_buffer(&self) -> (pixels: &[u32])
        ensures
            pixels@ == self@.target,
    {
        if self.active_buffer {
            self.buffer1.as_slice()
        } else {
            self.buffer2.as_slice()
        }
    }

    /// The depth stored for each pixel.
    pub fn get_depth_buffer(&self) -> (depths: &[Scalar])
        ensures
            depths@ == self@.depth,
    {
        self.zbuffer.as_slice()
    }

    /// Exchanges the roles of the two pixel arrays: what was drawn becomes
    /// the shown array, and the array shown so far becomes the write target.
    pub fn switch_buffers(&mut self)
        ensures
            final(self)@ == old(self)@.swapped(),
    {
        self.active_buffer = !self.active_buffer;
    }

    pub fn set_background_color(&mut self, color: u32)
        ensures
            final(self)@ == (Frame { background: color, ..old(self)@ }),
    {
        self.background_color = color;
    }

    pub fn set_current_color(&mut self, color: u32)
        ensures
            final(self)@ == (Frame { current: color, ..old(self)@ }),
    {
        self.current_color = color;
    }

    pub fn get_background_color(&self) -> (color: u32)
        ensures
            color == self@.background,
    {
        self.background_color
    }

    pub fn get_current_color(&self) -> (color: u32)
        ensures
            color == self@.current,
    {
        self.current_color
    }
}

} // verus!
