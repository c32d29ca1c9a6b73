//! What a framebuffer holds, as mathematics, and what is true of it.
//!
//! Every operation of [`crate::framebuffer::Framebuffer`] is stated as an
//! operation on a [`Frame`]; the facts proved here about frames therefore
//! hold of every sequence of calls.
use vstd::prelude::*;

use crate::color::EMPTY;
use crate::fragment::Shaded;
use crate::scalar::{Scalar, ONE_BITS};

verus! {

/// The packed colour that a new framebuffer draws with.
pub const WHITE: u32 = 0xFF_FFFF;

/// What a [`crate::framebuffer::Framebuffer`] holds, as mathematics.
///
/// The two pixel arrays are named by their roles, not by where they live:
/// `target` is the one that draws go to, `shown` the one that is handed out
/// for presentation. A swap exchanges the roles.
pub struct Frame {
    pub width: nat,
    pub height: nat,
    pub target: Seq<u32>,
    pub shown: Seq<u32>,
    pub depth: Seq<Scalar>,
    pub background: u32,
    pub current: u32,
}

impl Frame {
    /// The number of pixels.
    pub open spec fn len(self) -> nat {
        self.width * self.height
    }

    /// The size of the raster is a machine integer, all three arrays cover
    /// the raster, and no stored depth is a NaN.
    pub open spec fn wf(self) -> bool {
        &&& self.len() <= usize::MAX
        &&& self.target.len() == self.len()
        &&& self.shown.len() == self.len()
        &&& self.depth.len() == self.len()
        &&& forall|i: int| 0 <= i < self.depth.len() ==> !(#[trigger] self.depth[i]).is_nan_spec()
    }

    /// Whether a write of `color` at `depth` to pixel `index` takes effect:
    /// the pixel exists, the colour is not the empty one, and the depth is
    /// strictly nearer than the stored one.
    pub open spec fn admits(self, index: int, color: u32, depth: Scalar) -> bool {
        &&& 0 <= index < self.depth.len()
        &&& color != EMPTY
        &&& depth.lt_spec(self.depth[index])
    }

    /// The frame after a depth-tested write to pixel `index`.
    pub open spec fn write(self, index: int, color: u32, depth: Scalar) -> Frame {
        if self.admits(index, color, depth) {
            Frame {
                target: self.target.update(index, color),
                depth: self.depth.update(index, depth),
                ..self
            }
        } else {
            self
        }
    }

    /// The index of pixel `(x, y)` in row-major order.
    pub open spec fn index_of(self, x: int, y: int) -> int {
        y * self.width + x
    }

    /// Whether `(x, y)` lies on the raster.
    pub open spec fn contains(self, x: int, y: int) -> bool {
        0 <= x < self.width && 0 <= y < self.height
    }

    /// The frame after a depth-tested write to pixel `(x, y)`; a position
    /// off the raster is dropped.
    pub open spec fn plot(self, x: int, y: int, color: u32, depth: Scalar) -> Frame {
        if self.contains(x, y) {
            self.write(self.index_of(x, y), color, depth)
        } else {
            self
        }
    }

    /// The column of pixel `index`.
    pub open spec fn column(self, index: int) -> int {
        index % (self.width as int)
    }

    /// The row of pixel `index`.
    pub open spec fn row(self, index: int) -> int {
        index / (self.width as int)
    }

    /// The frame after one depth-tested write of `color` at `depth` to each
    /// pixel of the raster that `mask` selects. Such writes do not disturb
    /// one another, so neither their order nor their number matters.
    pub open spec fn stamp(self, mask: spec_fn(int, int) -> bool, color: u32, depth: Scalar) -> Frame {
        Frame {
            target: Seq::new(
                self.target.len(),
                |k: int|
                    if mask(self.column(k), self.row(k)) && self.admits(k, color, depth) {
                        color
                    } else {
                        self.target[k]
                    },
            ),
            depth: Seq::new(
                self.depth.len(),
                |k: int|
                    if mask(self.column(k), self.row(k)) && self.admits(k, color, depth) {
                        depth
                    } else {
                        self.depth[k]
                    },
            ),
            ..self
        }
    }

    /// The frame after the fragments of `fragments` have been plotted one
    /// after another, the first one first.
    pub open spec fn composited(self, fragments: Seq<Shaded>) -> Frame
        decreases fragments.len(),
    {
        if fragments.len() == 0 {
            self
        } else {
            let last = fragments.last();
            self.composited(fragments.drop_last()).plot(
                last.x as int,
                last.y as int,
                last.color,
                last.depth,
            )
        }
    }

    /// The frame after the calls of `calls`, each a colour and a depth,
    /// have been written to pixel `index` one after another.
    pub open spec fn written(self, index: int, calls: Seq<(u32, Scalar)>) -> Frame
        decreases calls.len(),
    {
        if calls.len() == 0 {
            self
        } else {
            self.written(index, calls.drop_last()).write(index, calls.last().0, calls.last().1)
        }
    }

    /// The frame after a star has been set at each position of `stars`,
    /// the first one first: a write of white at depth one to the pixel
    /// whose index is `y * width + x`.
    pub open spec fn starred(self, stars: Seq<(usize, usize)>) -> Frame
        decreases stars.len(),
    {
        if stars.len() == 0 {
            self
        } else {
            let last = stars.last();
            self.starred(stars.drop_last()).write(
                self.index_of(last.0 as int, last.1 as int),
                WHITE,
                Scalar { bits: ONE_BITS },
            )
        }
    }

    /// Whether `after` can come from this frame by depth-tested writes to
    /// pixels of `region`: nothing but the write target and the depths has
    /// changed, and a pixel that has changed lies in `region`, holds a colour
    /// that is not the empty one, and is strictly nearer than it was.
    pub open spec fn drawn_within(self, after: Frame, region: spec_fn(int, int) -> bool) -> bool {
        &&& after.width == self.width
        &&& after.height == self.height
        &&& after.shown == self.shown
        &&& after.background == self.background
        &&& after.current == self.current
        &&& after.target.len() == self.target.len()
        &&& after.depth.len() == self.depth.len()
        &&& forall|k: int|
            0 <= k < self.depth.len() ==> {
                ||| #[trigger] after.depth[k] == self.depth[k] && after.target[k] == self.target[k]
                ||| after.depth[k].lt_spec(self.depth[k]) && after.target[k] != EMPTY && region(
                    self.column(k),
                    self.row(k),
                )
            }
    }

    /// The frame after a clear: the write target is all background, every
    /// depth is infinitely far, and the shown array is as it was.
    pub open spec fn cleared(self) -> Frame {
        Frame {
            target: Seq::new(self.target.len(), |i: int| self.background),
            depth: Seq::new(self.depth.len(), |i: int| Scalar::infinity_spec()),
            ..self
        }
    }

    /// The frame after a swap: the two pixel arrays exchange roles.
    pub open spec fn swapped(self) -> Frame {
        Frame { target: self.shown, shown: self.target, ..self }
    }
}

/// Row-major indexing is a bijection between the pixels of a raster and the
/// indices below its size.
pub proof fn lemma_pixel_index(width: int, height: int, x: int, y: int)
    requires
        0 <= x < width,
        0 <= y < height,
    ensures
        0 <= y * width + x < width * height,
        (y * width + x) % width == x,
        (y * width + x) / width == y,
{
    assert(y * width + x < width * height) by (nonlinear_arith)
        requires
            0 <= x < width,
            0 <= y < height,
    {
        assert((y + 1) * width <= height * width);
    }
    assert(0 <= y * width) by (nonlinear_arith)
        requires
            0 <= y,
            0 < width,
    ;
    vstd::arithmetic::div_mod::lemma_fundamental_div_mod_converse_mod(y * width + x, width, y, x);
    vstd::arithmetic::div_mod::lemma_fundamental_div_mod_converse_div(y * width + x, width, y, x);
}

/// Every index below the size of a raster is that of one of its pixels.
pub proof fn lemma_index_pixel(width: int, height: int, index: int)
    requires
        0 <= index < width * height,
        0 <= width,
        0 <= height,
    ensures
        0 <= index % width < width,
        0 <= index / width < height,
        (index / width) * width + index % width == index,
{
    assert(width > 0) by (nonlinear_arith)
        requires
            0 <= index < width * height,
            0 <= width,
    ;
    vstd::arithmetic::div_mod::lemma_fundamental_div_mod(index, width);
    let q = index / width;
    assert(width * q == q * width) by (nonlinear_arith);
    assert(0 <= q < height) by (nonlinear_arith)
        requires
            0 <= index < width * height,
            0 < width,
            0 <= height,
            q * width + index % width == index,
            0 <= index % width < width,
    {
        if q >= height {
            assert(q * width >= height * width);
        }
        if q < 0 {
            assert(q * width <= -width);
        }
    }
}

/// Stamping a mask that selects no pixel of the raster changes nothing.
pub proof fn lemma_stamp_nothing(
    frame: Frame,
    mask: spec_fn(int, int) -> bool,
    color: u32,
    depth: Scalar,
)
    requires
        frame.wf(),
        forall|px: int, py: int| frame.contains(px, py) ==> !#[trigger] mask(px, py),
    ensures
        frame.stamp(mask, color, depth) == frame,
{
    let stamped = frame.stamp(mask, color, depth);
    assert forall|k: int| 0 <= k < frame.len() implies stamped.target[k] == frame.target[k]
        && stamped.depth[k] == frame.depth[k] by {
        lemma_index_pixel(frame.width as int, frame.height as int, k);
        assert(frame.contains(frame.column(k), frame.row(k)));
    }
    assert(stamped.target =~= frame.target);
    assert(stamped.depth =~= frame.depth);
}

/// A mask can be stamped pixel by pixel: stamping `before` and then
/// plotting one further pixel is stamping the two together.
pub proof fn lemma_stamp_extend(
    frame: Frame,
    before: spec_fn(int, int) -> bool,
    after: spec_fn(int, int) -> bool,
    x: int,
    y: int,
    color: u32,
    depth: Scalar,
)
    requires
        frame.wf(),
        !before(x, y),
        forall|px: int, py: int| #[trigger] after(px, py) <==> (before(px, py) || (px == x && py == y)),
    ensures
        frame.stamp(before, color, depth).plot(x, y, color, depth) == frame.stamp(after, color, depth),
{
    let stamped = frame.stamp(before, color, depth);
    let plotted = stamped.plot(x, y, color, depth);
    let all = frame.stamp(after, color, depth);
    let w = frame.width as int;
    let h = frame.height as int;
    if frame.contains(x, y) {
        lemma_pixel_index(w, h, x, y);
    }
    assert forall|k: int| 0 <= k < frame.len() implies plotted.target[k] == all.target[k]
        && plotted.depth[k] == all.depth[k] by {
        lemma_index_pixel(w, h, k);
        assert(after(frame.column(k), frame.row(k)) <==> (before(frame.column(k), frame.row(k)) || (
        frame.column(k) == x && frame.row(k) == y)));
    }
    assert(plotted.target =~= all.target);
    assert(plotted.depth =~= all.depth);
}

/// On a cleared frame a stamp shows as it is: for a colour that is not the
/// empty one and a depth nearer than infinitely far, the pixels that the
/// mask selects hold that colour and depth, and all others the background,
/// infinitely far.
pub proof fn lemma_stamp_cleared(
    frame: Frame,
    mask: spec_fn(int, int) -> bool,
    color: u32,
    depth: Scalar,
)
    requires
        frame.wf(),
        color != EMPTY,
        depth.lt_spec(Scalar::infinity_spec()),
    ensures
        forall|k: int|
            0 <= k < frame.len() ==> (#[trigger] frame.cleared().stamp(mask, color, depth).target[k])
                == if mask(frame.column(k), frame.row(k)) {
                color
            } else {
                frame.background
            },
        forall|k: int|
            0 <= k < frame.len() ==> (#[trigger] frame.cleared().stamp(mask, color, depth).depth[k])
                == if mask(frame.column(k), frame.row(k)) {
                depth
            } else {
                Scalar::infinity_spec()
            },
{
}

/// Two masks that select the same pixels of the raster stamp alike.
pub proof fn lemma_stamp_same(
    frame: Frame,
    first: spec_fn(int, int) -> bool,
    second: spec_fn(int, int) -> bool,
    color: u32,
    depth: Scalar,
)
    requires
        frame.wf(),
        forall|px: int, py: int|
            frame.contains(px, py) ==> (#[trigger] first(px, py) <==> #[trigger] second(px, py)),
    ensures
        frame.stamp(first, color, depth) == frame.stamp(second, color, depth),
{
    let one = frame.stamp(first, color, depth);
    let two = frame.stamp(second, color, depth);
    assert forall|k: int| 0 <= k < frame.len() implies one.target[k] == two.target[k]
        && one.depth[k] == two.depth[k] by {
        lemma_index_pixel(frame.width as int, frame.height as int, k);
        assert(frame.contains(frame.column(k), frame.row(k)));
    }
    assert(one.target =~= two.target);
    assert(one.depth =~= two.depth);
}

/// Whether a call can take effect at all: its colour is not the empty one
/// and its depth is a number.
pub open spec fn effective(call: (u32, Scalar)) -> bool {
    call.0 != EMPTY && !call.1.is_nan_spec()
}

/// Whether call number `k` wins the pixel: it can take effect, it is nearer
/// than the depth `stored` that the pixel had before the calls, no call
/// that can take effect is nearer than it, and none before it is as near.
pub open spec fn wins(stored: Scalar, calls: Seq<(u32, Scalar)>, k: int) -> bool {
    &&& 0 <= k < calls.len()
    &&& effective(calls[k])
    &&& calls[k].1.key() < stored.key()
    &&& forall|l: int|
        0 <= l < calls.len() && effective(#[trigger] calls[l]) ==> calls[k].1.key() <= calls[l].1.key()
    &&& forall|l: int| 0 <= l < k && effective(#[trigger] calls[l]) ==> calls[k].1.key() < calls[l].1.key()
}

/// Whether no call is nearer than the depth `stored`.
pub open spec fn none_nearer(stored: Scalar, calls: Seq<(u32, Scalar)>) -> bool {
    forall|l: int| 0 <= l < calls.len() && effective(#[trigger] calls[l]) ==> stored.key() <= calls[l].1.key()
}

proof fn lemma_written_cell(frame: Frame, index: int, calls: Seq<(u32, Scalar)>)
    requires
        frame.wf(),
        0 <= index < frame.len(),
    ensures
        frame.written(index, calls).wf(),
        frame.written(index, calls) == (Frame {
            target: frame.target.update(index, frame.written(index, calls).target[index]),
            depth: frame.depth.update(index, frame.written(index, calls).depth[index]),
            ..frame
        }),
        (exists|k: int|
            wins(frame.depth[index], calls, k) && frame.written(index, calls).depth[index]
                == calls[k].1 && frame.written(index, calls).target[index] == calls[k].0) || (
        none_nearer(frame.depth[index], calls) && frame.written(index, calls).depth[index]
            == frame.depth[index] && frame.written(index, calls).target[index]
            == frame.target[index]),
    decreases calls.len(),
{
    let after = frame.written(index, calls);
    let stored = frame.depth[index];
    if calls.len() == 0 {
        assert(after.target =~= frame.target.update(index, after.target[index]));
        assert(after.depth =~= frame.depth.update(index, after.depth[index]));
    } else {
        let rest = calls.drop_last();
        let call = calls.last();
        let last = calls.len() - 1;
        lemma_written_cell(frame, index, rest);
        let before = frame.written(index, rest);
        assert(after == before.write(index, call.0, call.1));
        assert(after.target =~= frame.target.update(index, after.target[index]));
        assert(after.depth =~= frame.depth.update(index, after.depth[index]));
        assert forall|l: int| 0 <= l < rest.len() implies rest[l] == calls[l] by {}
        if before.admits(index, call.0, call.1) {
            assert(wins(stored, calls, last)) by {
                if none_nearer(stored, rest) && before.depth[index] == stored {
                    assert forall|l: int| 0 <= l < calls.len() && effective(#[trigger] calls[l]) implies call.1.key()
                        <= calls[l].1.key() by {
                        if l < last {
                            assert(effective(rest[l]));
                        }
                    }
                    assert forall|l: int| 0 <= l < last && effective(#[trigger] calls[l]) implies call.1.key()
                        < calls[l].1.key() by {
                        assert(effective(rest[l]));
                    }
                } else {
                    let k = choose|k: int|
                        wins(stored, rest, k) && before.depth[index] == rest[k].1
                            && before.target[index] == rest[k].0;
                    assert forall|l: int| 0 <= l < calls.len() && effective(#[trigger] calls[l]) implies call.1.key()
                        <= calls[l].1.key() by {
                        if l < last {
                            assert(effective(rest[l]));
                        }
                    }
                    assert forall|l: int| 0 <= l < last && effective(#[trigger] calls[l]) implies call.1.key()
                        < calls[l].1.key() by {
                        assert(effective(rest[l]));
                    }
                }
            }
            assert(after.depth[index] == calls[last].1 && after.target[index] == calls[last].0);
        } else {
            if none_nearer(stored, rest) && before.depth[index] == stored && before.target[index]
                == frame.target[index] {
                assert forall|l: int| 0 <= l < calls.len() && effective(#[trigger] calls[l]) implies stored.key()
                    <= calls[l].1.key() by {
                    if l < last {
                        assert(effective(rest[l]));
                    }
                }
            } else {
                let k = choose|k: int|
                    wins(stored, rest, k) && before.depth[index] == rest[k].1 && before.target[index]
                        == rest[k].0;
                assert(wins(stored, calls, k)) by {
                    assert forall|l: int| 0 <= l < calls.len() && effective(#[trigger] calls[l]) implies calls[k].1.key()
                        <= calls[l].1.key() by {
                        if l < last {
                            assert(effective(rest[l]));
                        }
                    }
                    assert forall|l: int| 0 <= l < k && effective(#[trigger] calls[l]) implies calls[k].1.key()
                        < calls[l].1.key() by {
                        assert(effective(rest[l]));
                    }
                }
                assert(after.depth[index] == calls[k].1 && after.target[index] == calls[k].0);
            }
        }
    }
}

/// The nearest call wins the pixel.
///
/// Take any calls of [`crate::framebuffer::Framebuffer::set_color_at_index`] on one pixel, in
/// any order, and count only those whose colour is not the empty one and
/// whose depth is a number. The depth stored afterwards is the least among
/// the depths of these calls and the depth stored before, and the colour is
/// that of the first call that brought this least depth; where no call was
/// nearer than what was stored, depth and colour are as before. No other
/// pixel changes.
pub proof fn lemma_nearest_wins(frame: Frame, index: int, calls: Seq<(u32, Scalar)>)
    requires
        frame.wf(),
        0 <= index < frame.len(),
    ensures
        frame.written(index, calls).wf(),
        frame.written(index, calls) == (Frame {
            target: frame.target.update(index, frame.written(index, calls).target[index]),
            depth: frame.depth.update(index, frame.written(index, calls).depth[index]),
            ..frame
        }),
        forall|k: int| #[trigger]
            wins(frame.depth[index], calls, k) ==> frame.written(index, calls).depth[index]
                == calls[k].1 && frame.written(index, calls).target[index] == calls[k].0,
        none_nearer(frame.depth[index], calls) ==> frame.written(index, calls).depth[index]
            == frame.depth[index] && frame.written(index, calls).target[index]
            == frame.target[index],
        none_nearer(frame.depth[index], calls) || exists|k: int| wins(frame.depth[index], calls, k),
        frame.written(index, calls).depth[index].key() <= frame.depth[index].key(),
        forall|l: int|
            0 <= l < calls.len() && effective(#[trigger] calls[l]) ==> frame.written(
                index,
                calls,
            ).depth[index].key() <= calls[l].1.key(),
{
    lemma_written_cell(frame, index, calls);
    let stored = frame.depth[index];
    let after = frame.written(index, calls);
    assert forall|k: int| #[trigger] wins(stored, calls, k) implies after.depth[index] == calls[k].1
        && after.target[index] == calls[k].0 by {
        assert(effective(calls[k]));
        if none_nearer(stored, calls) {
        } else {
            let w = choose|w: int|
                wins(stored, calls, w) && after.depth[index] == calls[w].1 && after.target[index]
                    == calls[w].0;
            assert(effective(calls[w]));
            if w < k {
            } else if k < w {
            }
        }
    }
    if none_nearer(stored, calls) {
        if exists|k: int| wins(stored, calls, k) {
            let k = choose|k: int| wins(stored, calls, k);
            assert(effective(calls[k]));
        }
    }
}

/// The order of the calls does not matter, unless two of them tie.
///
/// Two sequences of calls on one pixel that hold the same calls, in
/// whatever order and however often, leave the same frame, provided that no
/// two different calls that can take effect are equally near.
pub proof fn lemma_order_free(
    frame: Frame,
    index: int,
    first: Seq<(u32, Scalar)>,
    second: Seq<(u32, Scalar)>,
)
    requires
        frame.wf(),
        0 <= index < frame.len(),
        forall|call: (u32, Scalar)| first.contains(call) <==> second.contains(call),
        forall|k: int, l: int|
            0 <= k < first.len() && 0 <= l < first.len() && effective(#[trigger] first[k])
                && effective(#[trigger] first[l]) && first[k].1.key() == first[l].1.key()
                ==> first[k] == first[l],
    ensures
        frame.written(index, first) == frame.written(index, second),
{
    lemma_nearest_wins(frame, index, first);
    lemma_nearest_wins(frame, index, second);
    let stored = frame.depth[index];
    if none_nearer(stored, first) {
        assert forall|l: int| 0 <= l < second.len() && effective(#[trigger] second[l]) implies stored.key()
            <= second[l].1.key() by {
            assert(second.contains(second[l]));
            assert(first.contains(second[l]));
            let m = choose|m: int| 0 <= m < first.len() && first[m] == second[l];
            assert(effective(first[m]));
        }
    } else {
        let k = choose|k: int| wins(stored, first, k);
        assert(effective(first[k]));
        assert(first.contains(first[k]));
        assert(second.contains(first[k]));
        let m = choose|m: int| 0 <= m < second.len() && second[m] == first[k];
        assert(effective(second[m]));
        assert(!none_nearer(stored, second));
        let w = choose|w: int| wins(stored, second, w);
        assert(effective(second[w]));
        assert(second.contains(second[w]));
        assert(first.contains(second[w]));
        let l = choose|l: int| 0 <= l < first.len() && first[l] == second[w];
        assert(effective(first[l]));
        assert(first[k] == first[l]);
    }
}

/// Within a frame, depths only fall: a write leaves no pixel farther than
/// it was, and every pixel but the one written as it was.
pub proof fn lemma_write_never_farther(frame: Frame, index: int, color: u32, depth: Scalar)
    requires
        frame.wf(),
    ensures
        frame.write(index, color, depth).wf(),
        forall|k: int|
            0 <= k < frame.depth.len() ==> (#[trigger] frame.write(index, color, depth).depth[k]).key()
                <= frame.depth[k].key(),
        forall|k: int|
            0 <= k < frame.depth.len() && k != index ==> #[trigger] frame.write(
                index,
                color,
                depth,
            ).depth[k] == frame.depth[k] && frame.write(index, color, depth).target[k]
                == frame.target[k],
{
}

/// A swap presents what was drawn, and what is presented stays.
///
/// After a clear, any draws and a swap, the shown array is the one that the
/// draws went to, and the write target is the array that was shown before.
/// A clear that follows, and any draws after it, leave the shown array as
/// it is; only the next swap replaces it.
pub proof fn lemma_swap_presents(frame: Frame, draws: Seq<Shaded>, later: Seq<Shaded>)
    requires
        frame.wf(),
    ensures
        frame.cleared().composited(draws).swapped().shown == frame.cleared().composited(draws).target,
        frame.cleared().composited(draws).swapped().target == frame.shown,
        frame.cleared().composited(draws).swapped().cleared().shown == frame.cleared().composited(
            draws,
        ).target,
        frame.cleared().composited(draws).swapped().cleared().composited(later).shown
            == frame.cleared().composited(draws).target,
{
    let everywhere = |x: int, y: int| true;
    let cleared = frame.cleared();
    assert(cleared.wf());
    lemma_composited_within(cleared, draws, everywhere);
    let presented = cleared.composited(draws).swapped();
    assert(presented.cleared().wf());
    lemma_composited_within(presented.cleared(), later, everywhere);
}

/// Compositing preserves the invariant of a frame, and changes pixels only
/// where a fragment lies, only to what is nearer, and never to the empty
/// colour.
pub proof fn lemma_composited_within(
    frame: Frame,
    fragments: Seq<Shaded>,
    region: spec_fn(int, int) -> bool,
)
    requires
        frame.wf(),
        forall|k: int|
            0 <= k < fragments.len() ==> region(
                (#[trigger] fragments[k]).x as int,
                fragments[k].y as int,
            ),
    ensures
        frame.composited(fragments).wf(),
        frame.drawn_within(frame.composited(fragments), region),
    decreases fragments.len(),
{
    if fragments.len() > 0 {
        let last = fragments.last();
        let rest = fragments.drop_last();
        assert forall|k: int| 0 <= k < rest.len() implies region(
            (#[trigger] rest[k]).x as int,
            rest[k].y as int,
        ) by {
            assert(rest[k] == fragments[k]);
        }
        lemma_composited_within(frame, rest, region);
        let before = frame.composited(rest);
        let after = before.plot(last.x as int, last.y as int, last.color, last.depth);
        assert(region(last.x as int, last.y as int));
        if before.contains(last.x as int, last.y as int) {
            lemma_pixel_index(
                frame.width as int,
                frame.height as int,
                last.x as int,
                last.y as int,
            );
        }
        assert forall|k: int| 0 <= k < frame.depth.len() implies {
            ||| #[trigger] after.depth[k] == frame.depth[k] && after.target[k] == frame.target[k]
            ||| after.depth[k].lt_spec(frame.depth[k]) && after.target[k] != EMPTY && region(
                frame.column(k),
                frame.row(k),
            )
        } by {
            assert(before.depth[k] == frame.depth[k] && before.target[k] == frame.target[k]
                || before.depth[k].lt_spec(frame.depth[k]) && before.target[k] != EMPTY && region(
                frame.column(k),
                frame.row(k),
            ));
        }
    }
}

/// Compositing one list of fragments and then another is compositing the
/// two end to end.
pub proof fn lemma_composited_append(frame: Frame, first: Seq<Shaded>, second: Seq<Shaded>)
    ensures
        frame.composited(first + second) == frame.composited(first).composited(second),
    decreases second.len(),
{
    if second.len() == 0 {
        assert(first + second =~= first);
    } else {
        lemma_composited_append(frame, first, second.drop_last());
        assert((first + second).drop_last() =~= first + second.drop_last());
        assert((first + second).last() == second.last());
    }
}

/// What is drawn within a region is drawn within every larger one, and
/// drawing within a region twice is drawing within it.
pub proof fn lemma_drawn_chain(
    first: Frame,
    second: Frame,
    third: Frame,
    inner: spec_fn(int, int) -> bool,
    outer: spec_fn(int, int) -> bool,
)
    requires
        first.drawn_within(second, outer),
        second.drawn_within(third, inner),
        forall|x: int, y: int| #[trigger] inner(x, y) ==> outer(x, y),
    ensures
        first.drawn_within(third, outer),
{
    assert forall|k: int| 0 <= k < first.depth.len() implies {
        ||| #[trigger] third.depth[k] == first.depth[k] && third.target[k] == first.target[k]
        ||| third.depth[k].lt_spec(first.depth[k]) && third.target[k] != EMPTY && outer(
            first.column(k),
            first.row(k),
        )
    } by {
        assert(second.depth[k] == first.depth[k] && second.target[k] == first.target[k]
            || second.depth[k].lt_spec(first.depth[k]) && second.target[k] != EMPTY && outer(
            first.column(k),
            first.row(k),
        ));
        assert(third.depth[k] == second.depth[k] && third.target[k] == second.target[k]
            || third.depth[k].lt_spec(second.depth[k]) && third.target[k] != EMPTY && inner(
            second.column(k),
            second.row(k),
        ));
    }
}

} // verus!
