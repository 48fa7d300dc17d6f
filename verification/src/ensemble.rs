//! The ensemble driver: several approximations that search on their own,
//! and the composition that takes, pixel by pixel, the best of them.

use vstd::prelude::*;
use crate::image::{
    black, lemma_pixel_index_in_range, lemma_row_bounds, pixel_index, raw_bytes, Color, Image,
    Point,
};
use crate::loss::{lemma_squared_error_symmetric, squared_error};
use crate::search::{
    circle_color, is_candidate, is_stamp_outcome, stamp_accepted, stamp_result, tick,
};

verus! {

/// Whether `best` is the first of `candidates` whose squared error against
/// `wanted` is the least: none has a smaller error, and all before it have a
/// larger one.
pub open spec fn is_first_best(wanted: Color, candidates: Seq<Color>, best: int) -> bool {
    &&& 0 <= best < candidates.len()
    &&& forall|j: int|
        0 <= j < candidates.len() ==> squared_error(wanted, candidates[best]) <= squared_error(
            wanted,
            #[trigger] candidates[j],
        )
    &&& forall|j: int|
        0 <= j < best ==> squared_error(wanted, candidates[best]) < squared_error(
            wanted,
            #[trigger] candidates[j],
        )
}

/// The first of `candidates` with the least squared error against `wanted`.
pub open spec fn first_best(wanted: Color, candidates: Seq<Color>) -> int {
    choose|best: int| is_first_best(wanted, candidates, best)
}

/// The colours that the ensemble's members hold at buffer index `k`.
pub open spec fn member_colors(images: Seq<Image>, k: int) -> Seq<Color> {
    Seq::new(images.len(), |m: int| images[m]@[k])
}

/// The composition of an ensemble: at each pixel, the colour of the first
/// member whose squared error against the target is the least there.
pub open spec fn composite(target: Seq<Color>, images: Seq<Image>) -> Seq<Color> {
    Seq::new(
        target.len(),
        |k: int| member_colors(images, k)[first_best(target[k], member_colors(images, k))],
    )
}

/// A colour as the display takes it: one unused byte, then red, green, blue.
pub open spec fn packed(color: Color) -> int {
    color[0] * 65536 + color[1] * 256 + color[2]
}

/// Whether every member is a well-formed image of the target's size.
pub open spec fn members_fit(target: &Image, images: Seq<Image>) -> bool {
    forall|m: int|
        0 <= m < images.len() ==> (#[trigger] images[m]).wf() && images[m].same_size(target)
}

/// At most one candidate is the first best.
pub proof fn lemma_first_best_unique(wanted: Color, candidates: Seq<Color>, a: int, b: int)
    requires
        is_first_best(wanted, candidates, a),
        is_first_best(wanted, candidates, b),
    ensures
        a == b,
{
    if a < b {
        assert(squared_error(wanted, candidates[b]) < squared_error(wanted, candidates[a]));
    } else if b < a {
        assert(squared_error(wanted, candidates[a]) < squared_error(wanted, candidates[b]));
    }
}

/// Among one or more candidates there is a first best, and `first_best` is it.
pub proof fn lemma_first_best_exists(wanted: Color, candidates: Seq<Color>)
    requires
        candidates.len() > 0,
    ensures
        is_first_best(wanted, candidates, first_best(wanted, candidates)),
    decreases candidates.len(),
{
    if candidates.len() == 1 {
        assert(is_first_best(wanted, candidates, 0));
    } else {
        let init = candidates.drop_last();
        lemma_first_best_exists(wanted, init);
        let k = first_best(wanted, init);
        assert forall|j: int| 0 <= j < init.len() implies init[j] == candidates[j] by {}
        if squared_error(wanted, candidates.last()) < squared_error(wanted, init[k]) {
            let n = candidates.len() - 1;
            assert forall|j: int| 0 <= j < candidates.len() implies squared_error(
                wanted,
                candidates[n],
            ) <= squared_error(wanted, #[trigger] candidates[j]) by {
                if j < n {
                    assert(init[j] == candidates[j]);
                }
            }
            assert forall|j: int| 0 <= j < n implies squared_error(wanted, candidates[n])
                < squared_error(wanted, #[trigger] candidates[j]) by {
                assert(init[j] == candidates[j]);
            }
            assert(is_first_best(wanted, candidates, n));
        } else {
            assert forall|j: int| 0 <= j < candidates.len() implies squared_error(
                wanted,
                candidates[k],
            ) <= squared_error(wanted, #[trigger] candidates[j]) by {
                if j < init.len() {
                    assert(init[j] == candidates[j]);
                }
            }
            assert forall|j: int| 0 <= j < k implies squared_error(wanted, candidates[k])
                < squared_error(wanted, #[trigger] candidates[j]) by {
                assert(init[j] == candidates[j]);
            }
            assert(is_first_best(wanted, candidates, k));
        }
    }
}

/// At every pixel, the composition's squared error against the target is no
/// larger than that of any member of the ensemble.
pub proof fn lemma_composite_is_optimal(target: Seq<Color>, images: Seq<Image>, k: int, m: int)
    requires
        0 <= k < target.len(),
        0 <= m < images.len(),
    ensures
        squared_error(target[k], composite(target, images)[k]) <= squared_error(
            target[k],
            images[m]@[k],
        ),
{
    let candidates = member_colors(images, k);
    lemma_first_best_exists(target[k], candidates);
    assert(candidates[m] == images[m]@[k]);
}

/// The member whose colour at `point` is closest to the target's: the first
/// one with the least squared error.
pub fn best_member(target: &Image, images: &[Image], point: Point) -> (winner: usize)
    requires
        target.wf(),
        target.contains(point[0] as int, point[1] as int),
        images@.len() > 0,
        members_fit(target, images@),
    ensures
        is_first_best(
            target.pixel(point[0] as int, point[1] as int),
            member_colors(
                images@,
                pixel_index(target.spec_width() as int, point[0] as int, point[1] as int),
            ),
            winner as int,
        ),
{
    let ghost k = pixel_index(target.spec_width() as int, point[0] as int, point[1] as int);
    let ghost candidates = member_colors(images@, k);
    let wanted: Color = target.color_at(point);
    let mut winner: usize = 0;
    let mut least: u32 = Image::pixel_loss(images[0].color_at(point), wanted);
    proof {
        lemma_squared_error_symmetric(images@[0]@[k], wanted);
        assert(candidates[0] == images@[0]@[k]);
    }
    let mut m: usize = 1;
    while m < images.len()
        invariant
            target.wf(),
            target.contains(point[0] as int, point[1] as int),
            members_fit(target, images@),
            k == pixel_index(target.spec_width() as int, point[0] as int, point[1] as int),
            candidates == member_colors(images@, k),
            wanted == target@[k],
            1 <= m <= images@.len(),
            winner < m,
            least == squared_error(wanted, candidates[winner as int]),
            forall|j: int|
                0 <= j < m ==> least <= squared_error(wanted, #[trigger] candidates[j]),
            forall|j: int|
                0 <= j < winner ==> least < squared_error(wanted, #[trigger] candidates[j]),
        decreases images@.len() - m,
    {
        let color: Color = images[m].color_at(point);
        let loss: u32 = Image::pixel_loss(color, wanted);
        proof {
            lemma_squared_error_symmetric(color, wanted);
            assert(candidates[m as int] == color);
        }
        if loss < least {
            winner = m;
            least = loss;
        }
        m = m + 1;
    }
    winner
}

/// The colour of the composition at `point`: that of the best member there.
pub fn best_color(target: &Image, images: &[Image], point: Point) -> (color: Color)
    requires
        target.wf(),
        target.contains(point[0] as int, point[1] as int),
        images@.len() > 0,
        members_fit(target, images@),
    ensures
        color == composite(target@, images@)[pixel_index(
            target.spec_width() as int,
            point[0] as int,
            point[1] as int,
        )],
{
    let ghost k = pixel_index(target.spec_width() as int, point[0] as int, point[1] as int);
    let winner: usize = best_member(target, images, point);
    proof {
        lemma_pixel_index_in_range(
            target.spec_width() as int,
            target.spec_height() as int,
            point[0] as int,
            point[1] as int,
        );
        let candidates = member_colors(images@, k);
        lemma_first_best_exists(target@[k], candidates);
        lemma_first_best_unique(
            target@[k],
            candidates,
            winner as int,
            first_best(target@[k], candidates),
        );
        assert(candidates[winner as int] == images@[winner as int]@[k]);
    }
    images[winner].color_at(point)
}

/// Packs a colour for the display: one unused byte, then red, green, blue.
pub fn pack_color(color: Color) -> (word: u32)
    ensures
        word == packed(color),
{
    color[0] as u32 * 65536 + color[1] as u32 * 256 + color[2] as u32
}

/// Fills the display buffer with the composition of the ensemble, one packed
/// colour per pixel, row by row. What the buffer holds beyond the image's
/// pixels stays as it is.
pub fn compose(canvas: &mut Vec<u32>, target: &Image, images: &[Image])
    requires
        target.wf(),
        images@.len() > 0,
        members_fit(target, images@),
        old(canvas)@.len() >= target@.len(),
    ensures
        final(canvas)@.len() == old(canvas)@.len(),
        forall|k: int|
            0 <= k < target@.len() ==> final(canvas)@[k] == packed(
                #[trigger] composite(target@, images@)[k],
            ),
        forall|k: int|
            target@.len() <= k < old(canvas)@.len() ==> final(canvas)@[k] == old(canvas)@[k],
{
    let ghost width = target.spec_width() as int;
    let ghost height = target.spec_height() as int;
    let ghost whole = composite(target@, images@);
    let mut y: u32 = 0;
    while y < target.height()
        invariant
            target.wf(),
            images@.len() > 0,
            members_fit(target, images@),
            width == target.spec_width(),
            height == target.spec_height(),
            whole == composite(target@, images@),
            canvas@.len() == old(canvas)@.len(),
            canvas@.len() >= target@.len(),
            y <= height,
            forall|k: int| 0 <= k < y * width ==> canvas@[k] == packed(#[trigger] whole[k]),
            forall|k: int| y * width <= k < canvas@.len() ==> canvas@[k] == old(canvas)@[k],
        decreases height - y,
    {
        proof {
            lemma_row_bounds(width, height, y as int);
        }
        let mut x: u32 = 0;
        while x < target.width()
            invariant
                target.wf(),
                images@.len() > 0,
                members_fit(target, images@),
                width == target.spec_width(),
                height == target.spec_height(),
                whole == composite(target@, images@),
                canvas@.len() == old(canvas)@.len(),
                canvas@.len() >= target@.len(),
                y < height,
                x <= width,
                0 <= y * width,
                y * width + width <= target@.len(),
                (y + 1) * width == y * width + width,
                forall|k: int|
                    0 <= k < y * width + x ==> canvas@[k] == packed(#[trigger] whole[k]),
                forall|k: int|
                    y * width + x <= k < canvas@.len() ==> canvas@[k] == old(canvas)@[k],
            decreases width - x,
        {
            let color: Color = best_color(target, images, [x, y]);
            let i: usize = y as usize * target.width() as usize + x as usize;
            canvas.set(i, pack_color(color));
            x = x + 1;
        }
        y = y + 1;
    }
    proof {
        assert(y * width == width * height) by (nonlinear_arith)
            requires
                y == height,
        ;
    }
}

/// The composition of the ensemble as an image of the target's size. At no
/// pixel is any member closer to the target than the composition.
pub fn compose_image(target: &Image, images: &[Image]) -> (output: Image)
    requires
        target.wf(),
        images@.len() > 0,
        members_fit(target, images@),
    ensures
        output.wf(),
        output.same_size(target),
        output@ == composite(target@, images@),
        forall|k: int, m: int|
            0 <= k < target@.len() && 0 <= m < images@.len() ==> squared_error(
                target@[k],
                output@[k],
            ) <= squared_error(target@[k], #[trigger] images@[m]@[k]),
{
    let ghost width = target.spec_width() as int;
    let ghost height = target.spec_height() as int;
    let ghost whole = composite(target@, images@);
    proof {
        assert forall|k: int, m: int|
            0 <= k < target@.len() && 0 <= m < images@.len() implies squared_error(
            target@[k],
            whole[k],
        ) <= squared_error(target@[k], #[trigger] images@[m]@[k]) by {
            lemma_composite_is_optimal(target@, images@, k, m);
        }
    }
    let mut output: Image = Image::blank(target.width(), target.height());
    let mut y: u32 = 0;
    while y < target.height()
        invariant
            target.wf(),
            images@.len() > 0,
            members_fit(target, images@),
            width == target.spec_width(),
            height == target.spec_height(),
            whole == composite(target@, images@),
            output.wf(),
            output.same_size(target),
            y <= height,
            forall|k: int| 0 <= k < y * width ==> output@[k] == #[trigger] whole[k],
        decreases height - y,
    {
        proof {
            lemma_row_bounds(width, height, y as int);
        }
        let mut x: u32 = 0;
        while x < target.width()
            invariant
                target.wf(),
                images@.len() > 0,
                members_fit(target, images@),
                width == target.spec_width(),
                height == target.spec_height(),
                whole == composite(target@, images@),
                output.wf(),
                output.same_size(target),
                y < height,
                x <= width,
                0 <= y * width,
                y * width + width <= target@.len(),
                (y + 1) * width == y * width + width,
                forall|k: int| 0 <= k < y * width + x ==> output@[k] == #[trigger] whole[k],
            decreases width - x,
        {
            let color: Color = best_color(target, images, [x, y]);
            output.set_color_at([x, y], color);
            x = x + 1;
        }
        y = y + 1;
    }
    proof {
        assert(y * width == width * height) by (nonlinear_arith)
            requires
                y == height,
        ;
        assert(output@ =~= whole);
    }
    output
}

/// The composition of the ensemble as bytes for export: red, green, blue of
/// each pixel, row by row. The bytes depend on the target and the members
/// alone: the same ensemble exports the same bytes.
pub fn export_bytes(target: &Image, images: &[Image]) -> (bytes: Vec<u8>)
    requires
        target.wf(),
        images@.len() > 0,
        members_fit(target, images@),
    ensures
        bytes@ == raw_bytes(composite(target@, images@)),
{
    compose_image(target, images).to_bytes()
}

/// An ensemble of `count` approximations for `target`: black images of its size.
pub fn new_ensemble(target: &Image, count: usize) -> (images: Vec<Image>)
    requires
        target.wf(),
    ensures
        images@.len() == count,
        members_fit(target, images@),
        forall|m: int, k: int|
            0 <= m < count && 0 <= k < target@.len() ==> (#[trigger] images@[m]@[k]) == black(),
{
    let mut images: Vec<Image> = Vec::new();
    let mut m: usize = 0;
    while m < count
        invariant
            target.wf(),
            m <= count,
            images@.len() == m,
            members_fit(target, images@),
            forall|j: int, k: int|
                0 <= j < m && 0 <= k < target@.len() ==> (#[trigger] images@[j]@[k]) == black(),
        decreases count - m,
    {
        images.push(Image::blank(target.width(), target.height()));
        m = m + 1;
    }
    images
}

/// Whether `after` comes from `before` by `steps` accepted search steps, one
/// after the other: each stamps a circle that a search step may draw, in the
/// colour of the weighted blend, with a negative loss delta.
pub open spec fn is_run_outcome(
    target: &Image,
    before: Seq<Color>,
    after: Seq<Color>,
    steps: nat,
) -> bool
    decreases steps,
{
    if steps == 0 {
        after == before
    } else {
        exists|mid: Seq<Color>, center_x: int, center_y: int, radius: int|
            is_run_outcome(target, before, mid, (steps - 1) as nat) && is_candidate(
                target,
                center_x,
                center_y,
                radius,
            ) && #[trigger] is_stamp_outcome(
                target,
                mid,
                after,
                center_x,
                center_y,
                radius,
                circle_color(target, center_x, center_y, radius),
            )
    }
}

/// Whether each of `circles`, given as centre column, centre row and
/// radius, is one that a search step may draw.
pub open spec fn all_candidates(target: &Image, circles: Seq<(int, int, int)>) -> bool {
    forall|i: int|
        0 <= i < circles.len() ==> is_candidate(
            target,
            (#[trigger] circles[i]).0,
            circles[i].1,
            circles[i].2,
        )
}

/// The pixels after one search step on each of `circles`, in order, each
/// in the colour of the weighted blend: every accepted stamp written, every
/// rejected one passed over.
pub open spec fn run_result(
    target: &Image,
    before: Seq<Color>,
    circles: Seq<(int, int, int)>,
) -> Seq<Color>
    decreases circles.len(),
{
    if circles.len() == 0 {
        before
    } else {
        let c = circles.last();
        stamp_result(
            target,
            run_result(target, before, circles.drop_last()),
            c.0,
            c.1,
            c.2,
            circle_color(target, c.0, c.1, c.2),
        )
    }
}

/// How many of the search steps on `circles`, taken in order from `before`,
/// are accepted.
pub open spec fn run_accepted(
    target: &Image,
    before: Seq<Color>,
    circles: Seq<(int, int, int)>,
) -> nat
    decreases circles.len(),
{
    if circles.len() == 0 {
        0
    } else {
        let c = circles.last();
        let earlier = run_accepted(target, before, circles.drop_last());
        if stamp_accepted(
            target,
            run_result(target, before, circles.drop_last()),
            c.0,
            c.1,
            c.2,
            circle_color(target, c.0, c.1, c.2),
        ) {
            earlier + 1
        } else {
            earlier
        }
    }
}

/// Whether `after` and `accepted` are what `steps` search steps make of
/// `before`: the pixels and the count of accepted steps after one step on
/// each of some `steps` circles that a step may draw, in order.
pub open spec fn is_steps_outcome(
    target: &Image,
    before: Seq<Color>,
    after: Seq<Color>,
    steps: nat,
    accepted: nat,
) -> bool {
    exists|circles: Seq<(int, int, int)>|
        circles.len() == steps && all_candidates(target, circles) && after
            == #[trigger] run_result(target, before, circles) && accepted == run_accepted(
            target,
            before,
            circles,
        )
}

/// One member's share of a round: `iterations` search steps on `approx`, one
/// after the other. Returns how many of them were accepted; `approx` then
/// holds their stamps and nothing else. Whatever is drawn, the outcome is
/// that of one step on each of `iterations` circles that a step may draw.
pub fn run_member(target: &Image, approx: &mut Image, iterations: usize) -> (accepted: usize)
    requires
        target.wf(),
        old(approx).wf(),
        old(approx).same_size(target),
        target.spec_width() >= 4,
        target.spec_height() >= 4,
    ensures
        is_steps_outcome(
            target,
            old(approx)@,
            final(approx)@,
            iterations as nat,
            accepted as nat,
        ),
        accepted <= iterations,
        is_run_outcome(target, old(approx)@, final(approx)@, accepted as nat),
        accepted == 0 ==> *final(approx) == *old(approx),
        final(approx).wf(),
        final(approx).same_size(target),
{
    let ghost mut circles: Seq<(int, int, int)> = Seq::empty();
    let mut accepted: usize = 0;
    let mut i: usize = 0;
    while i < iterations
        invariant
            target.wf(),
            approx.wf(),
            approx.same_size(target),
            target.spec_width() >= 4,
            target.spec_height() >= 4,
            i <= iterations,
            accepted <= i,
            circles.len() == i,
            all_candidates(target, circles),
            approx@ == run_result(target, old(approx)@, circles),
            accepted == run_accepted(target, old(approx)@, circles),
            is_run_outcome(target, old(approx)@, approx@, accepted as nat),
            accepted == 0 ==> *approx == *old(approx),
        decreases iterations - i,
    {
        let ghost mid = approx@;
        let improved: bool = tick(target, approx);
        if improved {
            accepted = accepted + 1;
        }
        proof {
            let (center_x, center_y, radius) = choose|center_x: int, center_y: int, radius: int|
                is_candidate(target, center_x, center_y, radius) && improved == stamp_accepted(
                    target,
                    mid,
                    center_x,
                    center_y,
                    radius,
                    circle_color(target, center_x, center_y, radius),
                ) && approx@ == #[trigger] stamp_result(
                    target,
                    mid,
                    center_x,
                    center_y,
                    radius,
                    circle_color(target, center_x, center_y, radius),
                );
            let longer = circles.push((center_x, center_y, radius));
            assert(longer.drop_last() =~= circles);
            assert(longer.last() == (center_x, center_y, radius));
            if improved {
                assert(is_run_outcome(target, old(approx)@, mid, (accepted - 1) as nat));
                assert(is_stamp_outcome(
                    target,
                    mid,
                    approx@,
                    center_x,
                    center_y,
                    radius,
                    circle_color(target, center_x, center_y, radius),
                ));
            }
            circles = longer;
        }
        i = i + 1;
    }
    proof {
        assert(approx@ == run_result(target, old(approx)@, circles));
    }
    accepted
}

/// One round of the whole ensemble, member after member: `iterations`
/// search steps on each. No member reads or writes another. Returns, for
/// each member, how many of its steps were accepted. Whatever is drawn,
/// each member's outcome is that of `iterations` steps from where it stood.
pub fn run_round(target: &Image, images: &mut Vec<Image>, iterations: usize) -> (accepted: Vec<
    usize,
>)
    requires
        target.wf(),
        members_fit(target, old(images)@),
        target.spec_width() >= 4,
        target.spec_height() >= 4,
    ensures
        final(images)@.len() == old(images)@.len(),
        members_fit(target, final(images)@),
        accepted@.len() == old(images)@.len(),
        forall|m: int|
            0 <= m < accepted@.len() ==> is_steps_outcome(
                target,
                old(images)@[m]@,
                final(images)@[m]@,
                iterations as nat,
                (#[trigger] accepted@[m]) as nat,
            ),
        forall|m: int|
            0 <= m < accepted@.len() ==> (#[trigger] accepted@[m]) <= iterations && is_run_outcome(
                target,
                old(images)@[m]@,
                final(images)@[m]@,
                accepted@[m] as nat,
            ),
{
    let mut accepted: Vec<usize> = Vec::new();
    let mut m: usize = 0;
    while m < images.len()
        invariant
            target.wf(),
            target.spec_width() >= 4,
            target.spec_height() >= 4,
            images@.len() == old(images)@.len(),
            members_fit(target, images@),
            m <= images@.len(),
            accepted@.len() == m,
            forall|j: int|
                0 <= j < m ==> is_steps_outcome(
                    target,
                    old(images)@[j]@,
                    images@[j]@,
                    iterations as nat,
                    (#[trigger] accepted@[j]) as nat,
                ),
            forall|j: int|
                0 <= j < m ==> (#[trigger] accepted@[j]) <= iterations && is_run_outcome(
                    target,
                    old(images)@[j]@,
                    images@[j]@,
                    accepted@[j] as nat,
                ),
            forall|j: int| m <= j < images@.len() ==> images@[j] == old(images)@[j],
        decreases images@.len() - m,
    {
        let count: usize = run_member(target, &mut images[m], iterations);
        accepted.push(count);
        m = m + 1;
    }
    accepted
}

/// What the driver does when a round is over.
#[derive(Clone, Copy, Debug, PartialEq, Eq, Structural)]
pub enum RoundAction {
    /// Run another round and show its composition.
    Search,
    /// Stop searching and export the composition.
    Export,
}

/// Decides at a round boundary whether the search goes on: it does while
/// the display is open and the escape key is up; otherwise it is time to export.
pub fn next_action(display_open: bool, escape_down: bool) -> (action: RoundAction)
    ensures
        action == (if display_open && !escape_down {
            RoundAction::Search
        } else {
            RoundAction::Export
        }),
{
    if display_open && !escape_down {
        RoundAction::Search
    } else {
        RoundAction::Export
    }
}

} // verus!
