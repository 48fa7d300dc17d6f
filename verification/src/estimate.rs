//! The colour estimator: picks the fill colour of a candidate circle from the
//! target's colours at the circle's centre and along its boundary.

use vstd::prelude::*;
use crate::image::{Color, Image};
use crate::raster::as_pairs;

verus! {

/// How many of `points` lie inside `target`, counting repeated points each time.
pub open spec fn inside_count(target: &Image, points: Seq<(int, int)>) -> nat
    decreases points.len(),
{
    if points.len() == 0 {
        0
    } else {
        let p = points.last();
        let rest = inside_count(target, points.drop_last());
        if target.contains(p.0, p.1) {
            rest + 1
        } else {
            rest
        }
    }
}

/// Sum of channel `k` of the target's colours at those of `points` that lie
/// inside `target`, counting repeated points each time.
pub open spec fn channel_sum(target: &Image, points: Seq<(int, int)>, k: int) -> nat
    decreases points.len(),
{
    if points.len() == 0 {
        0
    } else {
        let p = points.last();
        let rest = channel_sum(target, points.drop_last(), k);
        if target.contains(p.0, p.1) {
            rest + target.pixel(p.0, p.1)[k] as nat
        } else {
            rest
        }
    }
}

/// Channel `k` of the target's colour at the centre, or of black where the
/// centre lies outside the image.
pub open spec fn center_channel(target: &Image, center_x: int, center_y: int, k: int) -> int {
    if target.contains(center_x, center_y) {
        target.pixel(center_x, center_y)[k] as int
    } else {
        0
    }
}

/// The radius from which the boundary alone decides the colour: a quarter of
/// the image's shorter side.
pub open spec fn blend_radius(target: &Image) -> int {
    if target.spec_width() <= target.spec_height() {
        target.spec_width() as int / 4
    } else {
        target.spec_height() as int / 4
    }
}

/// Channel `k` of the weighted blend. With no boundary point inside the image
/// it is the centre's channel. Otherwise the boundary's mean `e` (rounded
/// down) is mixed with the centre's channel `c` as `(1 - w) * c + w * e`,
/// rounded down, where the weight `w` is `radius / blend_radius`, capped at 1.
pub open spec fn weighted_channel(
    target: &Image,
    center_x: int,
    center_y: int,
    radius: int,
    points: Seq<(int, int)>,
    k: int,
) -> int {
    let n = inside_count(target, points);
    let c = center_channel(target, center_x, center_y, k);
    if n == 0 {
        c
    } else {
        let e = channel_sum(target, points, k) as int / n as int;
        let m = blend_radius(target);
        if radius >= m {
            e
        } else {
            ((m - radius) * c + radius * e) / m
        }
    }
}

/// The colour of the weighted blend: `weighted_channel` for red, green and blue.
pub open spec fn weighted_color(
    target: &Image,
    center_x: int,
    center_y: int,
    radius: int,
    points: Seq<(int, int)>,
) -> Color {
    [
        weighted_channel(target, center_x, center_y, radius, points, 0) as u8,
        weighted_channel(target, center_x, center_y, radius, points, 1) as u8,
        weighted_channel(target, center_x, center_y, radius, points, 2) as u8,
    ]
}

/// Mixes centre channel `c` and boundary channel `e` with weight `radius / limit`.
fn blend(c: u8, e: u8, radius: u64, limit: u64) -> (mixed: u8)
    requires
        1 <= radius < limit <= u32::MAX,
    ensures
        mixed == ((limit - radius) * c + radius * e) / (limit as int),
{
    let near: u64 = limit - radius;
    assert(near * c + radius * e <= 255 * limit && near * c <= 255 * near && radius * e <= 255
        * radius) by (nonlinear_arith)
        requires
            near + radius == limit,
            c <= 255,
            e <= 255,
    ;
    let total: u64 = near * (c as u64) + radius * (e as u64);
    assert(total / limit <= 255) by (nonlinear_arith)
        requires
            total <= 255 * limit,
            limit > 0,
    ;
    (total / limit) as u8
}

/// The mean of a channel over `count` points, rounded down.
fn mean(sum: u128, count: usize) -> (m: u8)
    requires
        count > 0,
        sum <= 255 * count,
    ensures
        m == sum as int / count as int,
{
    let n: u128 = count as u128;
    assert(sum / n <= 255) by (nonlinear_arith)
        requires
            sum <= 255 * n,
            n > 0,
    ;
    (sum / n) as u8
}

/// The fill colour of the circle around (`center_x`, `center_y`) by the
/// weighted-blend policy: per channel, the value of `weighted_channel`.
///
/// `circle_points` are the circle's boundary points; those outside the image
/// are passed over.
pub fn calculate_weighted_color(
    target: &Image,
    center_x: isize,
    center_y: isize,
    radius: isize,
    circle_points: &[[isize; 2]],
) -> (color: Color)
    requires
        target.wf(),
        radius >= 1,
    ensures
        color == weighted_color(
            target,
            center_x as int,
            center_y as int,
            radius as int,
            as_pairs(circle_points@),
        ),
        forall|k: int|
            0 <= k < 3 ==> color[k] == weighted_channel(
                target,
                center_x as int,
                center_y as int,
                radius as int,
                as_pairs(circle_points@),
                k,
            ),
{
    let ghost pairs = as_pairs(circle_points@);
    let ghost blended = weighted_color(
        target,
        center_x as int,
        center_y as int,
        radius as int,
        pairs,
    );
    let center_color: Color = match target.locate(center_x, center_y) {
        Some(p) => target.color_at(p),
        None => [0, 0, 0],
    };

    let mut valid_points: usize = 0;
    let mut red: u128 = 0;
    let mut green: u128 = 0;
    let mut blue: u128 = 0;
    let mut i: usize = 0;
    while i < circle_points.len()
        invariant
            target.wf(),
            i <= circle_points.len(),
            pairs == as_pairs(circle_points@),
            valid_points == inside_count(target, pairs.take(i as int)),
            red == channel_sum(target, pairs.take(i as int), 0),
            green == channel_sum(target, pairs.take(i as int), 1),
            blue == channel_sum(target, pairs.take(i as int), 2),
            valid_points <= i,
            red <= 255 * valid_points,
            green <= 255 * valid_points,
            blue <= 255 * valid_points,
        decreases circle_points.len() - i,
    {
        assert(pairs.take(i + 1).drop_last() == pairs.take(i as int));
        let p: [isize; 2] = circle_points[i];
        match target.locate(p[0], p[1]) {
            Some(q) => {
                let c: Color = target.color_at(q);
                valid_points = valid_points + 1;
                red = red + c[0] as u128;
                green = green + c[1] as u128;
                blue = blue + c[2] as u128;
            },
            None => {},
        }
        i = i + 1;
    }
    assert(pairs.take(i as int) == pairs);

    if valid_points == 0 {
        assert(center_color =~= blended);
        return center_color;
    }
    let edge_color: Color = [
        mean(red, valid_points),
        mean(green, valid_points),
        mean(blue, valid_points),
    ];

    let shorter: u32 = if target.width() <= target.height() {
        target.width()
    } else {
        target.height()
    };
    let max_radius: u32 = shorter / 4;
    if radius as i128 >= max_radius as i128 {
        assert(edge_color =~= blended);
        return edge_color;
    }
    let r: u64 = radius as u64;
    let m: u64 = max_radius as u64;
    let color: Color = [
        blend(center_color[0], edge_color[0], r, m),
        blend(center_color[1], edge_color[1], r, m),
        blend(center_color[2], edge_color[2], r, m),
    ];
    assert(color =~= blended);
    color
}

} // verus!
