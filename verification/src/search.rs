//! The search step: propose one circle, score it against the target, and
//! keep it only if it lowers the loss.

use vstd::prelude::*;
use crate::estimate::{blend_radius, calculate_weighted_color, weighted_color};
use crate::image::{Change, Color, Image};
use crate::loss::{
    apply_changes, changes_fit, delta_of, lemma_settled_delta_is_total_loss_change,
    lemma_settled_delta_of_distinct, positions_distinct, settled_delta, total_loss,
};
use crate::raster::{as_pairs, circle_points, generate_circle_points};

verus! {

/// One integer between `low` and `high`, both included, drawn by
/// `rand::random_range` from the calling thread's generator. The draw is
/// taken to lie within the bounds asked for, and nothing else is claimed of
/// it; `rand` panics on an empty range, so `low` may not exceed `high`.
#[verifier::external_body]
fn random_in(low: u32, high: u32) -> (value: u32)
    requires
        low <= high,
    ensures
        low <= value <= high,
{
    rand::random_range(low..=high)
}

/// The change set of a stamp: for each of `points` that lies inside the
/// image, in order and as often as it occurs, the write of `color` there.
pub open spec fn stamp_changes(target: &Image, points: Seq<(int, int)>, color: Color) -> Seq<
    Change,
>
    decreases points.len(),
{
    if points.len() == 0 {
        Seq::empty()
    } else {
        let p = points.last();
        let rest = stamp_changes(target, points.drop_last(), color);
        if target.contains(p.0, p.1) {
            rest.push(([p.0 as u32, p.1 as u32], color))
        } else {
            rest
        }
    }
}

/// Whether `after` is what an accepted stamp of `color` on the circle of
/// radius `radius` about (`center_x`, `center_y`) makes of `before`: the
/// stamp's loss delta is negative, and its changes have been written.
pub open spec fn is_stamp_outcome(
    target: &Image,
    before: Seq<Color>,
    after: Seq<Color>,
    center_x: int,
    center_y: int,
    radius: int,
    color: Color,
) -> bool {
    let width = target.spec_width() as int;
    let changes = stamp_changes(target, circle_points(center_x, center_y, radius), color);
    &&& delta_of(target@, before, width, changes) < 0
    &&& after == apply_changes(before, width, changes)
}

/// Whether a search step keeps the stamp of `color` on the circle of radius
/// `radius` about (`center_x`, `center_y`): whether the stamp's loss delta
/// against the pixels `before` is negative.
pub open spec fn stamp_accepted(
    target: &Image,
    before: Seq<Color>,
    center_x: int,
    center_y: int,
    radius: int,
    color: Color,
) -> bool {
    delta_of(
        target@,
        before,
        target.spec_width() as int,
        stamp_changes(target, circle_points(center_x, center_y, radius), color),
    ) < 0
}

/// The pixels that a search step leaves when it proposes the stamp of
/// `color` on the circle of radius `radius` about (`center_x`, `center_y`):
/// `before` with the stamp's changes written if the stamp is accepted, and
/// `before` itself if it is not.
pub open spec fn stamp_result(
    target: &Image,
    before: Seq<Color>,
    center_x: int,
    center_y: int,
    radius: int,
    color: Color,
) -> Seq<Color> {
    if stamp_accepted(target, before, center_x, center_y, radius, color) {
        apply_changes(
            before,
            target.spec_width() as int,
            stamp_changes(target, circle_points(center_x, center_y, radius), color),
        )
    } else {
        before
    }
}

/// The colour that the weighted-blend policy gives the circle of radius
/// `radius` about (`center_x`, `center_y`).
pub open spec fn circle_color(target: &Image, center_x: int, center_y: int, radius: int) -> Color {
    weighted_color(target, center_x, center_y, radius, circle_points(center_x, center_y, radius))
}

/// Whether a circle is one that a search step may draw: its centre inside
/// the image, its radius between 1 and a quarter of the shorter side.
pub open spec fn is_candidate(target: &Image, center_x: int, center_y: int, radius: int) -> bool {
    &&& target.contains(center_x, center_y)
    &&& 1 <= radius <= blend_radius(target)
}

/// The changes of a stamp all write inside the image.
pub proof fn lemma_stamp_changes_fit(target: &Image, points: Seq<(int, int)>, color: Color)
    ensures
        changes_fit(
            target.spec_width() as int,
            target.spec_height() as int,
            stamp_changes(target, points, color),
        ),
        stamp_changes(target, points, color).len() <= points.len(),
    decreases points.len(),
{
    if points.len() > 0 {
        lemma_stamp_changes_fit(target, points.drop_last(), color);
    }
}

/// The change set of a stamp of `color` on `points`: the points outside the
/// image are dropped, the others paired with the colour.
pub fn candidate_changes(target: &Image, points: &[[isize; 2]], color: Color) -> (changes: Vec<
    Change,
>)
    ensures
        changes@ == stamp_changes(target, as_pairs(points@), color),
        changes_fit(target.spec_width() as int, target.spec_height() as int, changes@),
{
    let ghost pairs = as_pairs(points@);
    let mut changes: Vec<Change> = Vec::new();
    let mut i: usize = 0;
    while i < points.len()
        invariant
            pairs == as_pairs(points@),
            i <= points.len(),
            changes@ == stamp_changes(target, pairs.take(i as int), color),
        decreases points.len() - i,
    {
        assert(pairs.take(i + 1).drop_last() == pairs.take(i as int));
        let p: [isize; 2] = points[i];
        match target.locate(p[0], p[1]) {
            Some(q) => {
                assert(q =~= [p[0] as u32, p[1] as u32]);
                changes.push((q, color));
            },
            None => {},
        }
        i = i + 1;
    }
    proof {
        assert(pairs.take(i as int) == pairs);
        lemma_stamp_changes_fit(target, pairs, color);
    }
    changes
}

/// Writes `changes` into `approx` if their loss delta against `target` is
/// negative; otherwise `approx` stays as it is. Where no position is written
/// twice, an accepted change set lowers the total loss by its loss delta;
/// in general the total loss moves by the settled delta.
pub fn apply_if_better(target: &Image, approx: &mut Image, changes: &[Change]) -> (improved: bool)
    requires
        target.wf(),
        old(approx).wf(),
        old(approx).same_size(target),
        changes_fit(target.spec_width() as int, target.spec_height() as int, changes@),
    ensures
        improved == (delta_of(target@, old(approx)@, target.spec_width() as int, changes@) < 0),
        improved ==> final(approx)@ == apply_changes(
            old(approx)@,
            target.spec_width() as int,
            changes@,
        ),
        !improved ==> *final(approx) == *old(approx),
        improved ==> total_loss(target@, final(approx)@) - total_loss(target@, old(approx)@)
            == settled_delta(target@, old(approx)@, target.spec_width() as int, changes@),
        improved && positions_distinct(changes@) ==> total_loss(target@, final(approx)@)
            < total_loss(target@, old(approx)@),
        final(approx).wf(),
        final(approx).same_size(target),
{
    let loss_delta: i128 = Image::loss_delta(target, approx, changes);
    if loss_delta >= 0 {
        return false;
    }
    proof {
        let width = target.spec_width() as int;
        let height = target.spec_height() as int;
        lemma_settled_delta_is_total_loss_change(target@, approx@, width, height, changes@);
        if positions_distinct(changes@) {
            lemma_settled_delta_of_distinct(target@, approx@, width, changes@);
        }
    }
    approx.apply(changes);
    true
}

/// Stamps `color` on those of `points` that lie inside the image, if that
/// lowers the loss against `target`; otherwise `approx` stays as it is.
pub fn stamp(target: &Image, approx: &mut Image, points: &[[isize; 2]], color: Color) -> (improved:
    bool)
    requires
        target.wf(),
        old(approx).wf(),
        old(approx).same_size(target),
    ensures
        improved == (delta_of(
            target@,
            old(approx)@,
            target.spec_width() as int,
            stamp_changes(target, as_pairs(points@), color),
        ) < 0),
        improved ==> final(approx)@ == apply_changes(
            old(approx)@,
            target.spec_width() as int,
            stamp_changes(target, as_pairs(points@), color),
        ),
        !improved ==> *final(approx) == *old(approx),
        final(approx).wf(),
        final(approx).same_size(target),
{
    let changes: Vec<Change> = candidate_changes(target, points, color);
    apply_if_better(target, approx, changes.as_slice())
}

/// One search step on a given circle: rasterizes it, takes its colour from
/// the weighted blend, and stamps it if that lowers the loss.
pub fn tick_at(
    target: &Image,
    approx: &mut Image,
    center_x: isize,
    center_y: isize,
    radius: isize,
) -> (improved: bool)
    requires
        target.wf(),
        old(approx).wf(),
        old(approx).same_size(target),
        radius >= 1,
        isize::MIN <= center_x - radius,
        center_x + radius <= isize::MAX,
        isize::MIN <= center_y - radius,
        center_y + radius <= isize::MAX,
    ensures
        improved == stamp_accepted(
            target,
            old(approx)@,
            center_x as int,
            center_y as int,
            radius as int,
            circle_color(target, center_x as int, center_y as int, radius as int),
        ),
        final(approx)@ == stamp_result(
            target,
            old(approx)@,
            center_x as int,
            center_y as int,
            radius as int,
            circle_color(target, center_x as int, center_y as int, radius as int),
        ),
        !improved ==> *final(approx) == *old(approx),
        final(approx).wf(),
        final(approx).same_size(target),
{
    let circle_points: Vec<[isize; 2]> = generate_circle_points(center_x, center_y, radius);
    let color: Color = calculate_weighted_color(
        target,
        center_x,
        center_y,
        radius,
        circle_points.as_slice(),
    );
    stamp(target, approx, circle_points.as_slice(), color)
}

/// A circle that a search step may draw, chosen at random: the centre
/// uniform over the image, the radius uniform from 1 to a quarter of the
/// shorter side.
fn random_candidate(target: &Image) -> (circle: (isize, isize, isize))
    requires
        target.wf(),
        target.spec_width() >= 4,
        target.spec_height() >= 4,
    ensures
        is_candidate(target, circle.0 as int, circle.1 as int, circle.2 as int),
        isize::MIN <= circle.0 - circle.2,
        circle.0 + circle.2 <= isize::MAX,
        isize::MIN <= circle.1 - circle.2,
        circle.1 + circle.2 <= isize::MAX,
{
    let width: u32 = target.width();
    let height: u32 = target.height();
    proof {
        assert(12 * width <= 3 * (width * height) && 12 * height <= 3 * (width * height))
            by (nonlinear_arith)
            requires
                width >= 4,
                height >= 4,
        ;
    }
    let center_x: u32 = random_in(0, width - 1);
    let center_y: u32 = random_in(0, height - 1);
    let shorter: u32 = if width <= height {
        width
    } else {
        height
    };
    let radius: u32 = random_in(1, shorter / 4);
    (center_x as isize, center_y as isize, radius as isize)
}

/// One search step: draws a circle at random, takes its colour from the
/// weighted blend, and stamps it if that lowers the loss. Returns whether
/// it did; a rejected circle leaves `approx` as it was. Whatever is drawn,
/// the outcome is that of `tick_at` on some circle that a step may draw.
pub fn tick(target: &Image, approx: &mut Image) -> (improved: bool)
    requires
        target.wf(),
        old(approx).wf(),
        old(approx).same_size(target),
        target.spec_width() >= 4,
        target.spec_height() >= 4,
    ensures
        exists|center_x: int, center_y: int, radius: int|
            is_candidate(target, center_x, center_y, radius) && improved == stamp_accepted(
                target,
                old(approx)@,
                center_x,
                center_y,
                radius,
                circle_color(target, center_x, center_y, radius),
            ) && final(approx)@ == #[trigger] stamp_result(
                target,
                old(approx)@,
                center_x,
                center_y,
                radius,
                circle_color(target, center_x, center_y, radius),
            ),
        !improved ==> *final(approx) == *old(approx),
        final(approx).wf(),
        final(approx).same_size(target),
{
    let (center_x, center_y, radius) = random_candidate(target);
    let improved: bool = tick_at(target, approx, center_x, center_y, radius);
    proof {
        assert(approx@ == stamp_result(
            target,
            old(approx)@,
            center_x as int,
            center_y as int,
            radius as int,
            circle_color(target, center_x as int, center_y as int, radius as int),
        ));
    }
    improved
}

/// A colour with each channel drawn uniformly from 0 to 255.
pub fn random_color() -> Color {
    let red: u32 = random_in(0, 255);
    let green: u32 = random_in(0, 255);
    let blue: u32 = random_in(0, 255);
    [red as u8, green as u8, blue as u8]
}

/// One search step with the colour drawn at random instead of estimated:
/// draws a circle and a colour, and stamps it if that lowers the loss.
/// Returns whether it did; a rejected circle leaves `approx` as it was.
/// Whatever is drawn, the outcome is that of proposing the stamp of some
/// colour on some circle that a step may draw.
pub fn tick_uniform(target: &Image, approx: &mut Image) -> (improved: bool)
    requires
        target.wf(),
        old(approx).wf(),
        old(approx).same_size(target),
        target.spec_width() >= 4,
        target.spec_height() >= 4,
    ensures
        exists|center_x: int, center_y: int, radius: int, color: Color|
            is_candidate(target, center_x, center_y, radius) && improved == stamp_accepted(
                target,
                old(approx)@,
                center_x,
                center_y,
                radius,
                color,
            ) && final(approx)@ == #[trigger] stamp_result(
                target,
                old(approx)@,
                center_x,
                center_y,
                radius,
                color,
            ),
        !improved ==> *final(approx) == *old(approx),
        final(approx).wf(),
        final(approx).same_size(target),
{
    let (center_x, center_y, radius) = random_candidate(target);
    let color: Color = random_color();
    let circle_points: Vec<[isize; 2]> = generate_circle_points(center_x, center_y, radius);
    let improved: bool = stamp(target, approx, circle_points.as_slice(), color);
    proof {
        assert(approx@ == stamp_result(
            target,
            old(approx)@,
            center_x as int,
            center_y as int,
            radius as int,
            color,
        ));
    }
    improved
}

} // verus!
