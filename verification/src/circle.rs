//! The discrete circle sampled by the FAST corner test.
use vstd::prelude::*;

verus! {

pub open spec fn abs_int(v: int) -> int {
    if v < 0 {
        -v
    } else {
        v
    }
}

/// How far `x² + y²` is from `r²`.
pub open spec fn circle_error(r: int, x: int, y: int) -> int {
    abs_int(x * x + y * y - r * r)
}

/// From `(x, y)` on the first quadrant arc, the neighbour among
/// `(x - 1, y + 1)`, `(x - 1, y)` and `(x, y + 1)` that lies closest to the
/// circle of radius `r`, preferring them in that order on ties.
pub open spec fn circle_step(r: int, x: int, y: int) -> (int, int) {
    let d1 = circle_error(r, x - 1, y);
    let d2 = circle_error(r, x - 1, y + 1);
    let d3 = circle_error(r, x, y + 1);
    if d2 <= d1 && d2 <= d3 {
        (x - 1, y + 1)
    } else if d1 <= d2 && d1 <= d3 {
        (x - 1, y)
    } else {
        (x, y + 1)
    }
}

/// The arc from `(x, y)` following `circle_step`, up to (not including) the
/// first point on the vertical axis.
pub open spec fn arc_from(r: int, x: int, y: int) -> Seq<(int, int)>
    decreases x + r - y,
{
    if !(x >= 1 && 0 <= y <= r) {
        Seq::empty()
    } else {
        let next = circle_step(r, x, y);
        if next.0 >= 1 && 0 <= next.1 <= r {
            seq![(x, y)] + arc_from(r, next.0, next.1)
        } else {
            seq![(x, y)]
        }
    }
}

/// The points of the circle of radius `r` in the first quadrant, from
/// `(r, 0)` counterclockwise, without the point on the vertical axis.
pub open spec fn quarter_arc(r: int) -> Seq<(int, int)> {
    arc_from(r, r, 0)
}

/// A quarter turn counterclockwise.
pub open spec fn rotate_quarter(p: (i64, i64)) -> (i64, i64) {
    ((-p.1) as i64, p.0)
}

/// A step of the arc from a point of the first quadrant inside the square
/// of side `r` stays in that square, and the walk never leaves it upward.
pub proof fn lemma_circle_step(r: int, x: int, y: int)
    requires
        r >= 1,
        1 <= x <= r,
        0 <= y <= r,
    ensures
        x - 1 <= circle_step(r, x, y).0 <= x,
        y <= circle_step(r, x, y).1 <= y + 1,
        circle_step(r, x, y).1 <= r,
        circle_step(r, x, y).0 + circle_step(r, x, y).1 == x + y - 1 || circle_step(r, x, y).0
            + circle_step(r, x, y).1 == x + y || circle_step(r, x, y).0 + circle_step(r, x, y).1
            == x + y + 1,
{
    if y == r {
        let d1 = circle_error(r, x - 1, y);
        let d2 = circle_error(r, x - 1, y + 1);
        let d3 = circle_error(r, x, y + 1);
        assert(d1 == (x - 1) * (x - 1)) by (nonlinear_arith)
            requires
                y == r,
                x >= 1,
                d1 == circle_error(r, x - 1, y),
        ;
        assert(d2 == (x - 1) * (x - 1) + 2 * r + 1) by (nonlinear_arith)
            requires
                y == r,
                x >= 1,
                r >= 1,
                d2 == circle_error(r, x - 1, y + 1),
        ;
        assert(d3 == x * x + 2 * r + 1) by (nonlinear_arith)
            requires
                y == r,
                x >= 1,
                r >= 1,
                d3 == circle_error(r, x, y + 1),
        ;
        assert(x * x >= (x - 1) * (x - 1)) by (nonlinear_arith)
            requires
                x >= 1,
        ;
    }
}

pub proof fn lemma_arc_from_props(r: int, x: int, y: int)
    requires
        r >= 1,
        1 <= x <= r,
        0 <= y <= r,
    ensures
        arc_from(r, x, y).len() >= 1,
        arc_from(r, x, y)[0] == (x, y),
        arc_from(r, x, y).len() <= x + r - y,
        forall|i: int|
            0 <= i < arc_from(r, x, y).len() ==> 1 <= #[trigger] arc_from(r, x, y)[i].0 <= x && y
                <= arc_from(r, x, y)[i].1 <= r,
    decreases x + r - y,
{
    lemma_circle_step(r, x, y);
    let next = circle_step(r, x, y);
    if next.0 >= 1 && 0 <= next.1 <= r {
        lemma_arc_from_props(r, next.0, next.1);
        let rest = arc_from(r, next.0, next.1);
        assert forall|i: int| 0 <= i < arc_from(r, x, y).len() implies 1 <= #[trigger] arc_from(
            r,
            x,
            y,
        )[i].0 <= x && y <= arc_from(r, x, y)[i].1 <= r by {
            if i > 0 {
                assert(arc_from(r, x, y)[i] == rest[i - 1]);
            }
        }
    }
}

/// Points of the discrete circle of radius `radius` around the origin:
/// the first-quadrant arc starting at `(radius, 0)`, followed by that arc
/// turned by one, two and three quarter turns.
pub fn create_circle(radius: u32) -> (points: Vec<(i64, i64)>)
    requires
        1 <= radius,
        radius * radius <= u32::MAX,
    ensures
        points@.len() == 4 * quarter_arc(radius as int).len(),
        forall|i: int|
            0 <= i < quarter_arc(radius as int).len() ==> (#[trigger] points@[i]).0 == quarter_arc(
                radius as int,
            )[i].0 && points@[i].1 == quarter_arc(radius as int)[i].1,
        forall|i: int|
            quarter_arc(radius as int).len() <= i < points@.len() ==> #[trigger] points@[i]
                == rotate_quarter(points@[i - quarter_arc(radius as int).len()]),
        forall|i: int|
            0 <= i < points@.len() ==> -radius <= (#[trigger] points@[i]).0 <= radius && -radius
                <= points@[i].1 <= radius,
        forall|i: int|
            0 <= i < 2 * quarter_arc(radius as int).len() ==> #[trigger] points@[i + 2
                * quarter_arc(radius as int).len()] == ((-points@[i].0) as i64, (-points@[i].1) as i64),
{
    let r: i64 = radius as i64;
    let ghost ri = radius as int;
    let mut points: Vec<(i64, i64)> = Vec::new();
    points.push((r, 0));
    assert(ri <= 65535) by (nonlinear_arith)
        requires
            ri * ri <= u32::MAX,
            ri >= 1,
    ;
    proof {
        lemma_arc_from_props(ri, ri, 0);
    }
    loop
        invariant
            r == ri,
            1 <= ri <= 65535,
            ri * ri <= u32::MAX,
            points@.len() >= 1,
            1 <= points@.last().0 <= ri,
            0 <= points@.last().1 <= ri,
            forall|i: int|
                0 <= i < points@.len() ==> 1 <= (#[trigger] points@[i]).0 <= ri && 0
                    <= points@[i].1 <= ri,
            quarter_arc(ri) =~= points@.drop_last().map_values(|p: (i64, i64)| (p.0 as int, p.1 as int))
                + arc_from(ri, points@.last().0 as int, points@.last().1 as int),
            arc_from(ri, points@.last().0 as int, points@.last().1 as int).len() <= points@.last().0
                + ri - points@.last().1,
            points@.len() - 1 + points@.last().0 + ri - points@.last().1 <= 2 * ri,
        ensures
            quarter_arc(ri) =~= points@.map_values(|p: (i64, i64)| (p.0 as int, p.1 as int)),
            points@.len() >= 1,
            points@.len() <= 2 * ri,
            forall|i: int|
                0 <= i < points@.len() ==> 1 <= (#[trigger] points@[i]).0 <= ri && 0
                    <= points@[i].1 <= ri,
        decreases points@.last().0 + ri - points@.last().1,
    {
        let (px, py) = points[points.len() - 1];
        assert(px == points@.last().0 && py == points@.last().1);
        proof {
            lemma_circle_step(ri, px as int, py as int);
            assert(px * px <= u32::MAX && py * py <= u32::MAX && (px - 1) * (px - 1) <= u32::MAX
                && (py + 1) * (py + 1) <= 4 * (u32::MAX as int)) by (nonlinear_arith)
                requires
                    1 <= px <= ri,
                    0 <= py <= ri,
                    1 <= ri,
                    ri * ri <= u32::MAX,
            ;
            lemma_arc_from_props(ri, px as int, py as int);
        }
        let sq_rad = r * r;
        let d1 = abs_i64((px - 1) * (px - 1) + py * py - sq_rad);
        let d2 = abs_i64((px - 1) * (px - 1) + (py + 1) * (py + 1) - sq_rad);
        let d3 = abs_i64(px * px + (py + 1) * (py + 1) - sq_rad);
        let (nx, ny) = if d2 <= d1 && d2 <= d3 {
            (px - 1, py + 1)
        } else if d1 <= d2 && d1 <= d3 {
            (px - 1, py)
        } else {
            (px, py + 1)
        };
        assert((nx as int, ny as int) == circle_step(ri, px as int, py as int));
        let ghost before = points@;
        if nx == 0 && ny <= r {
            proof {
                assert(arc_from(ri, px as int, py as int) =~= seq![(px as int, py as int)]);
                assert(before =~= before.drop_last().push(before.last()));
                assert(before.map_values(|p: (i64, i64)| (p.0 as int, p.1 as int))
                    =~= before.drop_last().map_values(|p: (i64, i64)| (p.0 as int, p.1 as int))
                    + seq![(px as int, py as int)]);
            }
            break;
        }
        points.push((nx, ny));
        proof {
            lemma_arc_from_props(ri, nx as int, ny as int);
            assert(points@.drop_last() =~= before);
            assert(arc_from(ri, px as int, py as int) =~= seq![(px as int, py as int)] + arc_from(
                ri,
                nx as int,
                ny as int,
            ));
            assert(before =~= before.drop_last().push(before.last()));
            assert(before.map_values(|p: (i64, i64)| (p.0 as int, p.1 as int))
                =~= before.drop_last().map_values(|p: (i64, i64)| (p.0 as int, p.1 as int))
                + seq![(px as int, py as int)]);
        }
    }
    let ghost arc = points@;
    assert(arc.map_values(|p: (i64, i64)| (p.0 as int, p.1 as int)) =~= quarter_arc(ri));
    let n_quarter = points.len();
    assert forall|i: int| 0 <= i < n_quarter implies #[trigger] arc[i].0 == quarter_arc(ri)[i].0
        && arc[i].1 == quarter_arc(ri)[i].1 by {
        assert(arc.map_values(|p: (i64, i64)| (p.0 as int, p.1 as int))[i] == quarter_arc(ri)[i]);
    }
    let mut turn: usize = 0;
    while turn < 3
        invariant
            n_quarter == arc.len(),
            n_quarter >= 1,
            n_quarter <= 2 * ri,
            1 <= ri <= 65535,
            turn <= 3,
            points@.len() == n_quarter * (turn + 1),
            forall|i: int| 0 <= i < n_quarter ==> #[trigger] points@[i] == arc[i],
            forall|i: int|
                n_quarter <= i < points@.len() ==> #[trigger] points@[i] == rotate_quarter(
                    points@[i - n_quarter],
                ),
            forall|i: int|
                0 <= i < points@.len() ==> -ri <= (#[trigger] points@[i]).0 <= ri && -ri
                    <= points@[i].1 <= ri,
        decreases 3 - turn,
    {
        let mut j: usize = 0;
        while j < n_quarter
            invariant
                n_quarter == arc.len(),
                n_quarter >= 1,
                n_quarter <= 2 * ri,
                1 <= ri <= 65535,
                turn < 3,
                j <= n_quarter,
                points@.len() == n_quarter * (turn + 1) + j,
                forall|i: int| 0 <= i < n_quarter ==> #[trigger] points@[i] == arc[i],
                forall|i: int|
                    n_quarter <= i < points@.len() ==> #[trigger] points@[i] == rotate_quarter(
                        points@[i - n_quarter],
                    ),
                forall|i: int|
                    0 <= i < points@.len() ==> -ri <= (#[trigger] points@[i]).0 <= ri && -ri
                        <= points@[i].1 <= ri,
            decreases n_quarter - j,
        {
            proof {
                assert(n_quarter * (turn + 1) + j <= 8 * ri) by (nonlinear_arith)
                    requires
                        n_quarter <= 2 * ri,
                        1 <= ri <= 65535,
                        turn < 3,
                        j <= n_quarter,
                ;
                assert(n_quarter * (turn + 1) >= n_quarter) by (nonlinear_arith)
                    requires
                        n_quarter >= 1,
                        turn >= 0,
                ;
            }
            let base = points[points.len() - n_quarter];
            points.push((-base.1, base.0));
            j = j + 1;
        }
        proof {
            assert(n_quarter * (turn + 1) + n_quarter == n_quarter * (turn + 2)) by (nonlinear_arith);
        }
        turn = turn + 1;
    }
    assert(points@.len() == 4 * n_quarter) by (nonlinear_arith)
        requires
            points@.len() == n_quarter * (turn + 1),
            turn == 3,
    ;
    assert forall|i: int| 0 <= i < 2 * n_quarter implies #[trigger] points@[i + 2 * n_quarter] == (
    (-points@[i].0) as i64, (-points@[i].1) as i64) by {
        assert(points@[i + 2 * n_quarter] == rotate_quarter(points@[i + n_quarter]));
        assert(points@[i + n_quarter] == rotate_quarter(points@[i]));
    }
    points
}

fn abs_i64(v: i64) -> (r: i64)
    requires
        v > i64::MIN,
    ensures
        r == abs_int(v as int),
{
    if v < 0 {
        -v
    } else {
        v
    }
}

} // verus!
