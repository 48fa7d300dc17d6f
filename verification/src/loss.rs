//! The loss evaluator: squared colour error per pixel, the change in total
//! error that a set of proposed writes would cause, and the writes themselves.

use vstd::prelude::*;
use crate::image::{
    lemma_pixel_index_in_range, lemma_pixel_index_injective, lemma_row_bounds, pixel_index,
    Change, Color, Image, Point,
};

verus! {

/// Squared difference of two channel values, taken as integers.
pub open spec fn channel_error(a: u8, b: u8) -> int {
    (a - b) * (a - b)
}

/// Squared error between two colours: the sum of the squared differences of
/// their three channels.
pub open spec fn squared_error(a: Color, b: Color) -> int {
    channel_error(a[0], b[0]) + channel_error(a[1], b[1]) + channel_error(a[2], b[2])
}

/// Total squared error of `approx` against `target`, over every pixel of `approx`.
pub open spec fn total_loss(target: Seq<Color>, approx: Seq<Color>) -> int
    decreases approx.len(),
{
    if approx.len() == 0 {
        0
    } else {
        total_loss(target, approx.drop_last()) + squared_error(
            target[approx.len() - 1],
            approx.last(),
        )
    }
}

/// Index into a buffer of rows of `width` pixels of the position that `change` writes.
pub open spec fn change_index(width: int, change: Change) -> int {
    pixel_index(width, change.0[0] as int, change.0[1] as int)
}

/// Whether every change writes inside a `width` by `height` image.
pub open spec fn changes_fit(width: int, height: int, changes: Seq<Change>) -> bool {
    forall|i: int|
        0 <= i < changes.len() ==> (#[trigger] changes[i]).0[0] < width && changes[i].0[1]
            < height
}

/// Whether no two changes write the same position.
pub open spec fn positions_distinct(changes: Seq<Change>) -> bool {
    forall|i: int, j: int|
        0 <= i < j < changes.len() ==> (#[trigger] changes[i]).0 != (#[trigger] changes[j]).0
}

/// The pixels after the changes have been written one after the other, in
/// order: where two changes write one position, the later one stays.
pub open spec fn apply_changes(pixels: Seq<Color>, width: int, changes: Seq<Change>) -> Seq<Color>
    decreases changes.len(),
{
    if changes.len() == 0 {
        pixels
    } else {
        apply_changes(pixels, width, changes.drop_last()).update(
            change_index(width, changes.last()),
            changes.last().1,
        )
    }
}

/// What one change adds to the total loss: the squared error of the new
/// colour less that of the colour now in place.
pub open spec fn change_delta(
    target: Seq<Color>,
    approx: Seq<Color>,
    width: int,
    change: Change,
) -> int {
    let i = change_index(width, change);
    squared_error(target[i], change.1) - squared_error(target[i], approx[i])
}

/// The loss delta of a change set: the sum of `change_delta` over its
/// entries, each entry counted, also where two of them write one position.
pub open spec fn delta_of(
    target: Seq<Color>,
    approx: Seq<Color>,
    width: int,
    changes: Seq<Change>,
) -> int
    decreases changes.len(),
{
    if changes.len() == 0 {
        0
    } else {
        delta_of(target, approx, width, changes.drop_last()) + change_delta(
            target,
            approx,
            width,
            changes.last(),
        )
    }
}

/// The squared error of two channel values lies between 0 and 255 squared,
/// and is 0 only for equal values.
pub proof fn lemma_channel_error_range(a: u8, b: u8)
    ensures
        0 <= channel_error(a, b) <= 65025,
        channel_error(a, b) == 0 <==> a == b,
{
    let d = a - b;
    assert(0 <= d * d <= 65025 && (d * d == 0 <==> d == 0)) by (nonlinear_arith)
        requires
            -255 <= d <= 255,
    ;
}

/// The squared error of two colours is never negative, never above three
/// times 255 squared, and 0 exactly when the colours are equal.
pub proof fn lemma_squared_error_zero_iff_equal(a: Color, b: Color)
    ensures
        0 <= squared_error(a, b) <= 195075,
        squared_error(a, b) == 0 <==> a == b,
{
    lemma_channel_error_range(a[0], b[0]);
    lemma_channel_error_range(a[1], b[1]);
    lemma_channel_error_range(a[2], b[2]);
    if squared_error(a, b) == 0 {
        assert(a =~= b);
    }
}

/// The squared error of two colours does not depend on their order.
pub proof fn lemma_squared_error_symmetric(a: Color, b: Color)
    ensures
        squared_error(a, b) == squared_error(b, a),
{
    assert((a[0] - b[0]) * (a[0] - b[0]) == (b[0] - a[0]) * (b[0] - a[0])) by (nonlinear_arith);
    assert((a[1] - b[1]) * (a[1] - b[1]) == (b[1] - a[1]) * (b[1] - a[1])) by (nonlinear_arith);
    assert((a[2] - b[2]) * (a[2] - b[2]) == (b[2] - a[2]) * (b[2] - a[2])) by (nonlinear_arith);
}

/// Writing one pixel changes the total loss by the squared error of the new
/// colour less that of the old one.
pub proof fn lemma_total_loss_update(target: Seq<Color>, approx: Seq<Color>, k: int, c: Color)
    requires
        0 <= k < approx.len(),
    ensures
        total_loss(target, approx.update(k, c)) == total_loss(target, approx) - squared_error(
            target[k],
            approx[k],
        ) + squared_error(target[k], c),
    decreases approx.len(),
{
    let after = approx.update(k, c);
    if k == approx.len() - 1 {
        assert(after.drop_last() =~= approx.drop_last());
    } else {
        assert(after.drop_last() =~= approx.drop_last().update(k, c));
        lemma_total_loss_update(target, approx.drop_last(), k, c);
    }
}

/// Changes that fit keep the number of pixels, and leave alone every pixel
/// that none of them writes.
pub proof fn lemma_apply_changes_frame(
    pixels: Seq<Color>,
    width: int,
    height: int,
    changes: Seq<Change>,
)
    requires
        0 <= width,
        0 <= height,
        pixels.len() == width * height,
        changes_fit(width, height, changes),
    ensures
        apply_changes(pixels, width, changes).len() == pixels.len(),
        forall|k: int|
            0 <= k < pixels.len() && (forall|i: int|
                0 <= i < changes.len() ==> change_index(width, #[trigger] changes[i]) != k)
                ==> apply_changes(pixels, width, changes)[k] == pixels[k],
    decreases changes.len(),
{
    if changes.len() > 0 {
        let init = changes.drop_last();
        let last = changes.last();
        lemma_apply_changes_frame(pixels, width, height, init);
        assert(last == changes[changes.len() - 1]);
        lemma_pixel_index_in_range(width, height, last.0[0] as int, last.0[1] as int);
        assert forall|k: int|
            0 <= k < pixels.len() && (forall|i: int|
                0 <= i < changes.len() ==> change_index(width, #[trigger] changes[i]) != k)
                implies apply_changes(pixels, width, changes)[k] == pixels[k] by {
            assert forall|i: int| 0 <= i < init.len() implies change_index(
                width,
                #[trigger] init[i],
            ) != k by {
                assert(init[i] == changes[i]);
            }
        }
    }
}

/// The changes without those that write position `p`.
pub open spec fn without_position(changes: Seq<Change>, p: Point) -> Seq<Change>
    decreases changes.len(),
{
    if changes.len() == 0 {
        changes
    } else {
        let rest = without_position(changes.drop_last(), p);
        if changes.last().0 == p {
            rest
        } else {
            rest.push(changes.last())
        }
    }
}

/// The loss delta with each written position counted once, for the colour
/// that stays there: what the last change adds, plus the same for the
/// earlier changes to other positions.
pub open spec fn settled_delta(
    target: Seq<Color>,
    approx: Seq<Color>,
    width: int,
    changes: Seq<Change>,
) -> int
    decreases changes.len(),
{
    if changes.len() == 0 {
        0
    } else {
        let earlier = without_position(changes.drop_last(), changes.last().0);
        proof {
            lemma_without_position(changes.drop_last(), changes.last().0);
        }
        settled_delta(target, approx, width, earlier) + change_delta(
            target,
            approx,
            width,
            changes.last(),
        )
    }
}

/// Leaving out the writes to one position leaves no more changes than
/// before, none of them at that position, and each of them one of the
/// changes given.
pub proof fn lemma_without_position(changes: Seq<Change>, p: Point)
    ensures
        without_position(changes, p).len() <= changes.len(),
        forall|i: int|
            0 <= i < without_position(changes, p).len() ==> (#[trigger] without_position(
                changes,
                p,
            )[i]).0 != p && changes.contains(without_position(changes, p)[i]),
        (forall|i: int| 0 <= i < changes.len() ==> (#[trigger] changes[i]).0 != p)
            ==> without_position(changes, p) == changes,
    decreases changes.len(),
{
    if changes.len() > 0 {
        let init = changes.drop_last();
        let rest = without_position(init, p);
        lemma_without_position(init, p);
        assert forall|i: int| 0 <= i < without_position(changes, p).len() implies (
        #[trigger] without_position(changes, p)[i]).0 != p && changes.contains(
            without_position(changes, p)[i],
        ) by {
            if i < rest.len() {
                let j = choose|j: int| 0 <= j < init.len() && init[j] == rest[i];
                assert(changes[j] == rest[i]);
            } else {
                assert(changes[changes.len() - 1] == changes.last());
            }
        }
        if forall|i: int| 0 <= i < changes.len() ==> (#[trigger] changes[i]).0 != p {
            assert forall|i: int| 0 <= i < init.len() implies (#[trigger] init[i]).0 != p by {
                assert(init[i] == changes[i]);
            }
            assert(changes[changes.len() - 1].0 != p);
            assert(rest.push(changes.last()) =~= changes);
        }
    }
}

/// Changes that fit still fit when the writes to one position are left out.
pub proof fn lemma_without_position_fits(width: int, height: int, changes: Seq<Change>, p: Point)
    requires
        changes_fit(width, height, changes),
    ensures
        changes_fit(width, height, without_position(changes, p)),
{
    lemma_without_position(changes, p);
    let kept = without_position(changes, p);
    assert forall|i: int| 0 <= i < kept.len() implies (#[trigger] kept[i]).0[0] < width
        && kept[i].0[1] < height by {
        let j = choose|j: int| 0 <= j < changes.len() && changes[j] == kept[i];
        assert(changes[j].0[0] < width);
    }
}

/// Once position `p` has been written, the earlier writes to it no longer show.
pub proof fn lemma_overwrite_hides_earlier_writes(
    pixels: Seq<Color>,
    width: int,
    height: int,
    changes: Seq<Change>,
    p: Point,
    c: Color,
)
    requires
        0 <= width,
        0 <= height,
        pixels.len() == width * height,
        changes_fit(width, height, changes),
        p[0] < width,
        p[1] < height,
    ensures
        apply_changes(pixels, width, changes).update(change_index(width, (p, c)), c)
            == apply_changes(pixels, width, without_position(changes, p)).update(
            change_index(width, (p, c)),
            c,
        ),
    decreases changes.len(),
{
    let k = change_index(width, (p, c));
    if changes.len() > 0 {
        let init = changes.drop_last();
        let e = changes.last();
        let kept = without_position(init, p);
        assert(e == changes[changes.len() - 1]);
        assert forall|i: int| 0 <= i < init.len() implies (#[trigger] init[i]).0[0] < width
            && init[i].0[1] < height by {
            assert(init[i] == changes[i]);
        }
        lemma_overwrite_hides_earlier_writes(pixels, width, height, init, p, c);
        lemma_apply_changes_frame(pixels, width, height, init);
        lemma_without_position_fits(width, height, init, p);
        lemma_apply_changes_frame(pixels, width, height, kept);
        lemma_pixel_index_in_range(width, height, p[0] as int, p[1] as int);
        lemma_pixel_index_in_range(width, height, e.0[0] as int, e.0[1] as int);
        let before = apply_changes(pixels, width, init);
        let before_kept = apply_changes(pixels, width, kept);
        let ke = change_index(width, e);
        if e.0 == p {
            assert(before.update(ke, e.1).update(k, c) =~= before.update(k, c));
        } else {
            if ke == k {
                lemma_pixel_index_injective(
                    width,
                    e.0[0] as int,
                    e.0[1] as int,
                    p[0] as int,
                    p[1] as int,
                );
                assert(e.0 =~= p);
            }
            assert(kept.push(e).drop_last() =~= kept);
            assert(kept.push(e).last() == e);
            assert(before.update(ke, e.1).update(k, c) =~= before.update(k, c).update(ke, e.1));
            assert(before_kept.update(k, c).update(ke, e.1) =~= before_kept.update(ke, e.1).update(
                k,
                c,
            ));
        }
    }
}

/// For any change set, the settled delta is exactly the total loss after the
/// writes less the total loss before them.
pub proof fn lemma_settled_delta_is_total_loss_change(
    target: Seq<Color>,
    approx: Seq<Color>,
    width: int,
    height: int,
    changes: Seq<Change>,
)
    requires
        0 <= width,
        0 <= height,
        approx.len() == width * height,
        changes_fit(width, height, changes),
    ensures
        total_loss(target, apply_changes(approx, width, changes)) - total_loss(target, approx)
            == settled_delta(target, approx, width, changes),
    decreases changes.len(),
{
    if changes.len() > 0 {
        let init = changes.drop_last();
        let last = changes.last();
        let p = last.0;
        let k = change_index(width, last);
        let earlier = without_position(init, p);
        assert(last == changes[changes.len() - 1]);
        assert forall|i: int| 0 <= i < init.len() implies (#[trigger] init[i]).0[0] < width
            && init[i].0[1] < height by {
            assert(init[i] == changes[i]);
        }
        lemma_without_position(init, p);
        lemma_without_position_fits(width, height, init, p);
        lemma_settled_delta_is_total_loss_change(target, approx, width, height, earlier);
        lemma_overwrite_hides_earlier_writes(approx, width, height, init, p, last.1);
        lemma_apply_changes_frame(approx, width, height, earlier);
        lemma_pixel_index_in_range(width, height, p[0] as int, p[1] as int);
        assert forall|i: int| 0 <= i < earlier.len() implies change_index(
            width,
            #[trigger] earlier[i],
        ) != k by {
            if change_index(width, earlier[i]) == k {
                lemma_pixel_index_injective(
                    width,
                    earlier[i].0[0] as int,
                    earlier[i].0[1] as int,
                    p[0] as int,
                    p[1] as int,
                );
                assert(earlier[i].0 =~= p);
            }
        }
        let mid = apply_changes(approx, width, earlier);
        assert(mid[k] == approx[k]);
        lemma_total_loss_update(target, mid, k, last.1);
    }
}

/// Where no position is written twice, the settled delta is the loss delta.
pub proof fn lemma_settled_delta_of_distinct(
    target: Seq<Color>,
    approx: Seq<Color>,
    width: int,
    changes: Seq<Change>,
)
    requires
        positions_distinct(changes),
    ensures
        settled_delta(target, approx, width, changes) == delta_of(target, approx, width, changes),
    decreases changes.len(),
{
    if changes.len() > 0 {
        let init = changes.drop_last();
        let last = changes.last();
        assert(last == changes[changes.len() - 1]);
        assert forall|i: int, j: int| 0 <= i < j < init.len() implies (#[trigger] init[i]).0 != (
        #[trigger] init[j]).0 by {
            assert(init[i] == changes[i] && init[j] == changes[j]);
        }
        assert forall|i: int| 0 <= i < init.len() implies (#[trigger] init[i]).0 != last.0 by {
            assert(init[i] == changes[i]);
        }
        lemma_without_position(init, last.0);
        lemma_settled_delta_of_distinct(target, approx, width, init);
    }
}

/// For a change set that writes no position twice, the loss delta is exactly
/// the total loss after the writes less the total loss before them.
pub proof fn lemma_delta_is_total_loss_change(
    target: Seq<Color>,
    approx: Seq<Color>,
    width: int,
    height: int,
    changes: Seq<Change>,
)
    requires
        0 <= width,
        0 <= height,
        approx.len() == width * height,
        changes_fit(width, height, changes),
        positions_distinct(changes),
    ensures
        total_loss(target, apply_changes(approx, width, changes)) - total_loss(target, approx)
            == delta_of(target, approx, width, changes),
{
    lemma_settled_delta_is_total_loss_change(target, approx, width, height, changes);
    lemma_settled_delta_of_distinct(target, approx, width, changes);
}

/// A change set that writes no position twice and has a negative loss delta
/// leaves the image with a strictly smaller total loss.
pub proof fn lemma_negative_delta_lowers_total_loss(
    target: Seq<Color>,
    approx: Seq<Color>,
    width: int,
    height: int,
    changes: Seq<Change>,
)
    requires
        0 <= width,
        0 <= height,
        approx.len() == width * height,
        changes_fit(width, height, changes),
        positions_distinct(changes),
        delta_of(target, approx, width, changes) < 0,
    ensures
        total_loss(target, apply_changes(approx, width, changes)) < total_loss(target, approx),
{
    lemma_delta_is_total_loss_change(target, approx, width, height, changes);
}

/// Squared difference of two channel values.
fn channel_loss(a: u8, b: u8) -> (loss: u32)
    ensures
        loss == channel_error(a, b),
        loss <= 65025,
{
    let d: u32 = if a >= b {
        (a - b) as u32
    } else {
        (b - a) as u32
    };
    proof {
        lemma_channel_error_range(a, b);
        assert(d * d == (a - b) * (a - b)) by (nonlinear_arith)
            requires
                d == a - b || d == b - a,
        ;
    }
    d * d
}

impl Image {
    /// Squared error between two colours, 0 exactly when they are equal.
    pub fn pixel_loss(a: Color, b: Color) -> (loss: u32)
        ensures
            loss == squared_error(a, b),
            loss <= 195075,
            loss == 0 <==> a == b,
    {
        proof {
            lemma_squared_error_zero_iff_equal(a, b);
        }
        channel_loss(a[0], b[0]) + channel_loss(a[1], b[1]) + channel_loss(a[2], b[2])
    }

    /// The change in total loss against `target` that writing `changes` into
    /// `approx` would cause, found from the written positions alone. Each entry
    /// counts, also where two of them write one position.
    pub fn loss_delta(target: &Image, approx: &Image, changes: &[Change]) -> (delta: i128)
        requires
            target.wf(),
            approx.wf(),
            approx.same_size(target),
            changes_fit(target.spec_width() as int, target.spec_height() as int, changes@),
        ensures
            delta == delta_of(target@, approx@, target.spec_width() as int, changes@),
    {
        let ghost width = target.spec_width() as int;
        let mut delta: i128 = 0;
        let mut i: usize = 0;
        while i < changes.len()
            invariant
                target.wf(),
                approx.wf(),
                approx.same_size(target),
                width == target.spec_width(),
                changes_fit(width, target.spec_height() as int, changes@),
                i <= changes.len(),
                delta == delta_of(target@, approx@, width, changes@.take(i as int)),
                -195075 * i <= delta <= 195075 * i,
            decreases changes.len() - i,
        {
            assert(changes@.take(i + 1).drop_last() == changes@.take(i as int));
            let (pos, new_col) = changes[i];
            assert(changes@[i as int].0 == pos);
            let target_color: Color = target.color_at(pos);
            let approx_color: Color = approx.color_at(pos);
            let loss_without_changes: u32 = Image::pixel_loss(target_color, approx_color);
            let loss_with_changes: u32 = Image::pixel_loss(target_color, new_col);
            delta = delta + (loss_with_changes as i128 - loss_without_changes as i128);
            i = i + 1;
        }
        assert(changes@.take(i as int) == changes@);
        delta
    }

    /// Writes each change at its position, in order.
    pub fn apply(&mut self, changes: &[Change])
        requires
            old(self).wf(),
            changes_fit(old(self).spec_width() as int, old(self).spec_height() as int, changes@),
        ensures
            final(self)@ == apply_changes(old(self)@, old(self).spec_width() as int, changes@),
            final(self).same_size(old(self)),
            final(self).wf(),
    {
        let ghost width = self.spec_width() as int;
        let ghost height = self.spec_height() as int;
        let ghost start = self@;
        let mut i: usize = 0;
        while i < changes.len()
            invariant
                self.wf(),
                self.spec_width() == width,
                self.spec_height() == height,
                changes_fit(width, height, changes@),
                i <= changes.len(),
                self@ == apply_changes(start, width, changes@.take(i as int)),
            decreases changes.len() - i,
        {
            assert(changes@.take(i + 1).drop_last() == changes@.take(i as int));
            let (pos, col) = changes[i];
            assert(changes@[i as int].0 == pos);
            *self.color_at_mut(pos) = col;
            i = i + 1;
        }
        assert(changes@.take(i as int) == changes@);
    }

    /// Total squared error of `approx` against `target`, over all pixels.
    pub fn total_loss(target: &Image, approx: &Image) -> (loss: u128)
        requires
            target.wf(),
            approx.wf(),
            approx.same_size(target),
        ensures
            loss == total_loss(target@, approx@),
    {
        let ghost width = target.spec_width() as int;
        let ghost height = target.spec_height() as int;
        let mut loss: u128 = 0;
        let mut y: u32 = 0;
        assert(approx@.take(0) =~= Seq::empty());
        while y < target.height()
            invariant
                target.wf(),
                approx.wf(),
                approx.same_size(target),
                width == target.spec_width(),
                height == target.spec_height(),
                y <= height,
                0 <= y * width <= approx@.len(),
                loss == total_loss(target@, approx@.take(y * width)),
                loss <= 195075 * (y * width),
            decreases height - y,
        {
            proof {
                lemma_row_bounds(width, height, y as int);
            }
            let mut x: u32 = 0;
            while x < target.width()
                invariant
                    target.wf(),
                    approx.wf(),
                    approx.same_size(target),
                    width == target.spec_width(),
                    height == target.spec_height(),
                    y < height,
                    x <= width,
                    0 <= y * width,
                    y * width + width <= approx@.len(),
                    loss == total_loss(target@, approx@.take(y * width + x)),
                    loss <= 195075 * (y * width + x),
                decreases width - x,
            {
                let ghost k = pixel_index(width, x as int, y as int);
                assert(approx@.take(k + 1).drop_last() == approx@.take(k));
                let here: u32 = Image::pixel_loss(target.color_at([x, y]), approx.color_at([x, y]));
                loss = loss + here as u128;
                x = x + 1;
            }
            y = y + 1;
        }
        proof {
            assert(y * width == width * height) by (nonlinear_arith)
                requires
                    y == height,
            ;
            assert(approx@.take(y * width) == approx@);
        }
        loss
    }
}

} // verus!
