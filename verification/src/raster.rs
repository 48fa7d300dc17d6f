//! The rasterizer: the boundary points of a circle on the integer grid, found
//! by the midpoint method with integer steps only.

use vstd::prelude::*;

verus! {

/// The eight points at offset (`x`, `y`) from the centre and at its mirror
/// images about the axes and the diagonals, in the order they are produced.
pub open spec fn octant_points(xc: int, yc: int, x: int, y: int) -> Seq<(int, int)> {
    seq![
        (xc + x, yc + y),
        (xc - x, yc + y),
        (xc + x, yc - y),
        (xc - x, yc - y),
        (xc + y, yc + x),
        (xc - y, yc + x),
        (xc + y, yc - x),
        (xc - y, yc - x),
    ]
}

/// The points produced from the step at offset (`x`, `y`) with decision value
/// `d` onward: the step's eight points, then those of the next step, as long
/// as `x` has not passed `y`.
pub open spec fn arc_from(xc: int, yc: int, x: int, y: int, d: int) -> Seq<(int, int)>
    decreases y - x + 2,
{
    if x > y {
        Seq::empty()
    } else if d < 0 {
        octant_points(xc, yc, x, y) + arc_from(xc, yc, x + 1, y, d + 4 * x + 6)
    } else {
        octant_points(xc, yc, x, y) + arc_from(xc, yc, x + 1, y - 1, d + 4 * (x - y) + 10)
    }
}

/// The boundary points of the circle of radius `r` about (`xc`, `yc`): the
/// walk starts on the axis, at offset (0, `r`), with decision value `3 - 2r`.
pub open spec fn circle_points(xc: int, yc: int, r: int) -> Seq<(int, int)> {
    arc_from(xc, yc, 0, r, 3 - 2 * r)
}

/// The points of a list as pairs of mathematical integers.
pub open spec fn as_pairs(points: Seq<[isize; 2]>) -> Seq<(int, int)> {
    Seq::new(points.len(), |i: int| (points[i][0] as int, points[i][1] as int))
}

/// Whether `points` holds the point at offset (`dx`, `dy`) from the centre
/// together with its seven mirror images about the axes and the diagonals.
pub open spec fn has_all_mirrors(
    points: Seq<(int, int)>,
    xc: int,
    yc: int,
    dx: int,
    dy: int,
) -> bool {
    &&& points.contains((xc + dx, yc + dy))
    &&& points.contains((xc - dx, yc + dy))
    &&& points.contains((xc + dx, yc - dy))
    &&& points.contains((xc - dx, yc - dy))
    &&& points.contains((xc + dy, yc + dx))
    &&& points.contains((xc - dy, yc + dx))
    &&& points.contains((xc + dy, yc - dx))
    &&& points.contains((xc - dy, yc - dx))
}

/// Whether every point of `points` comes with all its mirror images.
pub open spec fn symmetric_about(points: Seq<(int, int)>, xc: int, yc: int) -> bool {
    forall|i: int|
        0 <= i < points.len() ==> has_all_mirrors(
            points,
            xc,
            yc,
            (#[trigger] points[i]).0 - xc,
            points[i].1 - yc,
        )
}

/// Whether the point `p` lies within `r` of the centre along each axis, its
/// squared distance from the centre differs from `r * r` by less than `r`,
/// and it lies less than one pixel from the circle of radius `r`.
pub open spec fn near_circle(p: (int, int), xc: int, yc: int, r: int) -> bool {
    let dx = p.0 - xc;
    let dy = p.1 - yc;
    &&& -r <= dx <= r
    &&& -r <= dy <= r
    &&& -r < dx * dx + dy * dy - r * r < r
    &&& (r - 1) * (r - 1) < dx * dx + dy * dy < (r + 1) * (r + 1)
}

/// Whether every point of `points` is near the circle.
pub open spec fn all_near_circle(points: Seq<(int, int)>, xc: int, yc: int, r: int) -> bool {
    forall|i: int| 0 <= i < points.len() ==> near_circle(#[trigger] points[i], xc, yc, r)
}

/// Squared distance of offset (`x`, `y`) from the centre, less `r * r`.
pub open spec fn excess(x: int, y: int, r: int) -> int {
    x * x + y * y - r * r
}

/// What the walk keeps true at each step: the decision value is twice the
/// excess of the current offset plus `4x - 2y + 3`, and while the walk goes on
/// the excess stays between `-y` and `y - 1`.
pub open spec fn walk_inv(x: int, y: int, d: int, r: int) -> bool {
    &&& 0 <= x
    &&& y <= r
    &&& d == 2 * excess(x, y, r) + 4 * x - 2 * y + 3
    &&& x <= y ==> -y <= excess(x, y, r) <= y - 1
}

/// One step of the walk keeps `walk_inv`.
pub proof fn lemma_walk_step(x: int, y: int, d: int, r: int)
    requires
        walk_inv(x, y, d, r),
        x <= y,
    ensures
        d < 0 ==> walk_inv(x + 1, y, d + 4 * x + 6, r),
        d >= 0 ==> walk_inv(x + 1, y - 1, d + 4 * (x - y) + 10, r),
        4 * x - 4 * y + 3 <= d <= 4 * x + 1,
{
    assert(excess(x + 1, y, r) == excess(x, y, r) + 2 * x + 1) by (nonlinear_arith);
    assert(excess(x + 1, y - 1, r) == excess(x, y, r) + 2 * x - 2 * y + 2) by (nonlinear_arith);
}

/// While the walk goes on, `x` stays below the radius.
pub proof fn lemma_walk_stays_inside(x: int, y: int, d: int, r: int)
    requires
        r >= 1,
        walk_inv(x, y, d, r),
        x <= y,
    ensures
        x < r,
{
    if x >= r {
        assert(x == r && y == r);
        assert(excess(r, r, r) == r * r && r * r >= r) by (nonlinear_arith)
            requires
                r >= 1,
        ;
    }
}

/// The walk starts with `walk_inv`.
pub proof fn lemma_walk_start(r: int)
    requires
        r >= 1,
    ensures
        walk_inv(0, r, 3 - 2 * r, r),
{
    assert(excess(0, r, r) == 0) by (nonlinear_arith);
}

/// A value found in either part of a concatenation is found in the whole.
proof fn lemma_contains_concat(a: Seq<(int, int)>, b: Seq<(int, int)>, v: (int, int))
    ensures
        a.contains(v) ==> (a + b).contains(v),
        b.contains(v) ==> (a + b).contains(v),
{
    if a.contains(v) {
        let i = choose|i: int| 0 <= i < a.len() && a[i] == v;
        assert((a + b)[i] == v);
    }
    if b.contains(v) {
        let i = choose|i: int| 0 <= i < b.len() && b[i] == v;
        assert((a + b)[a.len() + i] == v);
    }
}

/// Mirror images found in either part of a concatenation are found in the whole.
proof fn lemma_mirrors_concat(
    a: Seq<(int, int)>,
    b: Seq<(int, int)>,
    xc: int,
    yc: int,
    dx: int,
    dy: int,
)
    ensures
        has_all_mirrors(a, xc, yc, dx, dy) ==> has_all_mirrors(a + b, xc, yc, dx, dy),
        has_all_mirrors(b, xc, yc, dx, dy) ==> has_all_mirrors(a + b, xc, yc, dx, dy),
{
    lemma_contains_concat(a, b, (xc + dx, yc + dy));
    lemma_contains_concat(a, b, (xc - dx, yc + dy));
    lemma_contains_concat(a, b, (xc + dx, yc - dy));
    lemma_contains_concat(a, b, (xc - dx, yc - dy));
    lemma_contains_concat(a, b, (xc + dy, yc + dx));
    lemma_contains_concat(a, b, (xc - dy, yc + dx));
    lemma_contains_concat(a, b, (xc + dy, yc - dx));
    lemma_contains_concat(a, b, (xc - dy, yc - dx));
}

/// The eight points of one step hold all mirror images of each other.
proof fn lemma_octant_symmetric(xc: int, yc: int, x: int, y: int)
    ensures
        symmetric_about(octant_points(xc, yc, x, y), xc, yc),
{
    let b = octant_points(xc, yc, x, y);
    assert(b[0] == (xc + x, yc + y));
    assert(b[1] == (xc - x, yc + y));
    assert(b[2] == (xc + x, yc - y));
    assert(b[3] == (xc - x, yc - y));
    assert(b[4] == (xc + y, yc + x));
    assert(b[5] == (xc - y, yc + x));
    assert(b[6] == (xc + y, yc - x));
    assert(b[7] == (xc - y, yc - x));
    assert(has_all_mirrors(b, xc, yc, x, y));
    assert(has_all_mirrors(b, xc, yc, -x, y));
    assert(has_all_mirrors(b, xc, yc, x, -y));
    assert(has_all_mirrors(b, xc, yc, -x, -y));
    assert(has_all_mirrors(b, xc, yc, y, x));
    assert(has_all_mirrors(b, xc, yc, -y, x));
    assert(has_all_mirrors(b, xc, yc, y, -x));
    assert(has_all_mirrors(b, xc, yc, -y, -x));
}

/// Every point of the walk comes with all its mirror images.
pub proof fn lemma_arc_symmetric(xc: int, yc: int, x: int, y: int, d: int)
    ensures
        symmetric_about(arc_from(xc, yc, x, y, d), xc, yc),
    decreases y - x + 2,
{
    if x <= y {
        let head = octant_points(xc, yc, x, y);
        let tail = if d < 0 {
            arc_from(xc, yc, x + 1, y, d + 4 * x + 6)
        } else {
            arc_from(xc, yc, x + 1, y - 1, d + 4 * (x - y) + 10)
        };
        let whole = arc_from(xc, yc, x, y, d);
        assert(whole == head + tail);
        lemma_octant_symmetric(xc, yc, x, y);
        if d < 0 {
            lemma_arc_symmetric(xc, yc, x + 1, y, d + 4 * x + 6);
        } else {
            lemma_arc_symmetric(xc, yc, x + 1, y - 1, d + 4 * (x - y) + 10);
        }
        assert forall|i: int| 0 <= i < whole.len() implies has_all_mirrors(
            whole,
            xc,
            yc,
            (#[trigger] whole[i]).0 - xc,
            whole[i].1 - yc,
        ) by {
            if i < head.len() {
                assert(whole[i] == head[i]);
                lemma_mirrors_concat(head, tail, xc, yc, head[i].0 - xc, head[i].1 - yc);
            } else {
                let j = i - head.len();
                assert(whole[i] == tail[j]);
                lemma_mirrors_concat(head, tail, xc, yc, tail[j].0 - xc, tail[j].1 - yc);
            }
        }
    }
}

/// Every point of a walk that keeps `walk_inv` is near the circle.
pub proof fn lemma_arc_near_circle(xc: int, yc: int, x: int, y: int, d: int, r: int)
    requires
        r >= 1,
        walk_inv(x, y, d, r),
    ensures
        all_near_circle(arc_from(xc, yc, x, y, d), xc, yc, r),
    decreases y - x + 2,
{
    if x <= y {
        let head = octant_points(xc, yc, x, y);
        let tail = if d < 0 {
            arc_from(xc, yc, x + 1, y, d + 4 * x + 6)
        } else {
            arc_from(xc, yc, x + 1, y - 1, d + 4 * (x - y) + 10)
        };
        let whole = arc_from(xc, yc, x, y, d);
        assert(whole == head + tail);
        lemma_walk_step(x, y, d, r);
        if d < 0 {
            lemma_arc_near_circle(xc, yc, x + 1, y, d + 4 * x + 6, r);
        } else {
            lemma_arc_near_circle(xc, yc, x + 1, y - 1, d + 4 * (x - y) + 10, r);
        }
        let e = excess(x, y, r);
        assert(-r < e < r) by {
            if y == r {
                assert(x * x + r * r - r * r == x * x && x * x >= 0) by (nonlinear_arith);
            }
        }
        assert((r - 1) * (r - 1) == r * r - 2 * r + 1 && (r + 1) * (r + 1) == r * r + 2 * r + 1)
            by (nonlinear_arith);
        assert((-x) * (-x) == x * x && (-y) * (-y) == y * y && y * y + x * x == x * x + y * y)
            by (nonlinear_arith);
        assert forall|i: int| 0 <= i < whole.len() implies near_circle(
            #[trigger] whole[i],
            xc,
            yc,
            r,
        ) by {
            if i < head.len() {
                assert(whole[i] == head[i]);
            } else {
                assert(whole[i] == tail[i - head.len()]);
            }
        }
    }
}

/// The walk makes at most `y + 1 - x` steps of eight points each, and at
/// least one while `x` has not passed `y`.
pub proof fn lemma_arc_len(xc: int, yc: int, x: int, y: int, d: int)
    ensures
        x <= y ==> 8 <= arc_from(xc, yc, x, y, d).len() <= 8 * (y - x + 1),
        x > y ==> arc_from(xc, yc, x, y, d).len() == 0,
    decreases y - x + 2,
{
    if x <= y {
        if d < 0 {
            lemma_arc_len(xc, yc, x + 1, y, d + 4 * x + 6);
        } else {
            lemma_arc_len(xc, yc, x + 1, y - 1, d + 4 * (x - y) + 10);
        }
    }
}

/// The circle's boundary points are symmetric under the eight reflections
/// about the axes and the diagonals through the centre; each lies within `r`
/// of the centre along both axes and less than one pixel from the circle,
/// with a squared distance from the centre that differs from `r * r` by less
/// than `r`; and there are at least 8 and at most `8 * (r + 1)` of them.
pub proof fn lemma_circle_points_shape(xc: int, yc: int, r: int)
    requires
        r >= 1,
    ensures
        symmetric_about(circle_points(xc, yc, r), xc, yc),
        all_near_circle(circle_points(xc, yc, r), xc, yc, r),
        8 <= circle_points(xc, yc, r).len() <= 8 * (r + 1),
{
    lemma_arc_symmetric(xc, yc, 0, r, 3 - 2 * r);
    lemma_walk_start(r);
    lemma_arc_near_circle(xc, yc, 0, r, 3 - 2 * r, r);
    lemma_arc_len(xc, yc, 0, r, 3 - 2 * r);
}

/// The boundary points of the circle of radius `r` about (`xc`, `yc`), in the
/// order of the walk: eight per step, repeated points included, and points
/// with negative coordinates too.
pub fn generate_circle_points(xc: isize, yc: isize, r: isize) -> (points: Vec<[isize; 2]>)
    requires
        r >= 1,
        isize::MIN <= xc - r,
        xc + r <= isize::MAX,
        isize::MIN <= yc - r,
        yc + r <= isize::MAX,
    ensures
        as_pairs(points@) == circle_points(xc as int, yc as int, r as int),
        symmetric_about(as_pairs(points@), xc as int, yc as int),
        all_near_circle(as_pairs(points@), xc as int, yc as int, r as int),
        8 <= points.len() <= 8 * (r + 1),
{
    let mut points: Vec<[isize; 2]> = Vec::new();
    let mut x: isize = 0;
    let mut y: isize = r;
    let mut d: i128 = 3 - 2 * (r as i128);
    proof {
        lemma_walk_start(r as int);
        lemma_circle_points_shape(xc as int, yc as int, r as int);
        assert(as_pairs(points@) =~= Seq::empty());
    }
    while x <= y
        invariant
            r >= 1,
            isize::MIN <= xc - r,
            xc + r <= isize::MAX,
            isize::MIN <= yc - r,
            yc + r <= isize::MAX,
            walk_inv(x as int, y as int, d as int, r as int),
            -1 <= y,
            x <= y + 2,
            as_pairs(points@) + arc_from(xc as int, yc as int, x as int, y as int, d as int)
                == circle_points(xc as int, yc as int, r as int),
        decreases y - x + 2,
    {
        proof {
            lemma_walk_step(x as int, y as int, d as int, r as int);
            lemma_walk_stays_inside(x as int, y as int, d as int, r as int);
        }
        let ghost before = as_pairs(points@);
        points.push([xc + x, yc + y]);
        points.push([xc - x, yc + y]);
        points.push([xc + x, yc - y]);
        points.push([xc - x, yc - y]);
        points.push([xc + y, yc + x]);
        points.push([xc - y, yc + x]);
        points.push([xc + y, yc - x]);
        points.push([xc - y, yc - x]);
        let ghost head = octant_points(xc as int, yc as int, x as int, y as int);
        let ghost tail = if d < 0 {
            arc_from(xc as int, yc as int, x + 1, y as int, d + 4 * x + 6)
        } else {
            arc_from(xc as int, yc as int, x + 1, y - 1, d + 4 * (x - y) + 10)
        };
        proof {
            assert(as_pairs(points@) =~= before + head);
            assert((before + head) + tail =~= before + (head + tail));
        }

        if d < 0 {
            d = d + 4 * (x as i128) + 6;
        } else {
            d = d + 4 * (x as i128 - y as i128) + 10;
            y -= 1;
        }
        x += 1;
    }
    proof {
        assert(as_pairs(points@) + Seq::<(int, int)>::empty() =~= as_pairs(points@));
    }
    points
}

} // verus!
