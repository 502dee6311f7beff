//! FAST corner detection on single-channel 8-bit images: the corner
//! response of a pixel compares it with pairs of opposite points of a
//! discrete circle around it.
use vstd::prelude::*;

use crate::filter::{rect_sum, row_sum};
use crate::image::Image;
use crate::raster::lemma_lin_bound;

verus! {

/// Corner response of a centre value `c` against two values `a`, `b`.
pub open spec fn crf_spec(c: int, a: int, b: int) -> int {
    (a - c) * (a - c) + (b - c) * (b - c)
}

/// Corner response function: `(val0 - cval)² + (val1 - cval)²`.
pub fn calc_crf(cval: i64, val0: i64, val1: i64) -> (r: i64)
    requires
        -1_000_000_000 <= cval <= 1_000_000_000,
        -1_000_000_000 <= val0 <= 1_000_000_000,
        -1_000_000_000 <= val1 <= 1_000_000_000,
    ensures
        r == crf_spec(cval as int, val0 as int, val1 as int),
{
    let d0 = val0 - cval;
    let d1 = val1 - cval;
    assert(d0 * d0 <= 4_000_000_000_000_000_000 && d1 * d1 <= 4_000_000_000_000_000_000 && 0 <= d0
        * d0 && 0 <= d1 * d1) by (nonlinear_arith)
        requires
            -2_000_000_000 <= d0 <= 2_000_000_000,
            -2_000_000_000 <= d1 <= 2_000_000_000,
    ;
    d0 * d0 + d1 * d1
}

/// A real threshold `t` known through how it compares with integers: `floor`
/// is the largest integer not above `t`, and `integral` tells whether `t`
/// equals it.
#[derive(Clone, Copy)]
pub struct ResponseThreshold {
    pub floor: i64,
    pub integral: bool,
}

impl ResponseThreshold {
    /// `v < t`.
    pub open spec fn below(&self, v: int) -> bool {
        if self.integral {
            v < self.floor
        } else {
            v <= self.floor
        }
    }

    /// `v > t`.
    pub open spec fn above(&self, v: int) -> bool {
        v > self.floor
    }

    pub fn is_below(&self, v: i64) -> (r: bool)
        ensures
            r == self.below(v as int),
    {
        if self.integral {
            v < self.floor
        } else {
            v <= self.floor
        }
    }

    pub fn is_above(&self, v: i64) -> (r: bool)
        ensures
            r == self.above(v as int),
    {
        v > self.floor
    }
}

/// A pixel that passed the corner test, with its response.
#[derive(Clone, Copy)]
pub struct Corner {
    pub x: usize,
    pub y: usize,
    pub response: i64,
}

/// Intensity of pixel `(x, y)` of a single-channel image.
pub open spec fn gray_at(img: Image, x: int, y: int) -> int {
    img.data@[y * img.width + x] as int
}

/// Response of `(x, y)` against its left and right neighbours at distance `r`.
pub open spec fn rough_lr(img: Image, r: int, x: int, y: int) -> int {
    crf_spec(gray_at(img, x, y), gray_at(img, x + r, y), gray_at(img, x - r, y))
}

/// Response of `(x, y)` against its upper and lower neighbours at distance `r`.
pub open spec fn rough_tb(img: Image, r: int, x: int, y: int) -> int {
    crf_spec(gray_at(img, x, y), gray_at(img, x, y - r), gray_at(img, x, y + r))
}

/// Response of `(x, y)` against circle point `i` and the point half the
/// circle further.
pub open spec fn pair_response(img: Image, circle: Seq<(i64, i64)>, x: int, y: int, i: int) -> int {
    let h = circle.len() / 2;
    crf_spec(
        gray_at(img, x, y),
        gray_at(img, x + circle[i].0, y + circle[i].1),
        gray_at(img, x + circle[i + h].0, y + circle[i + h].1),
    )
}

pub open spec fn min_int(a: int, b: int) -> int {
    if a <= b {
        a
    } else {
        b
    }
}

/// Minimum of the left-right response and the responses of circle pairs
/// `1..m`.
pub open spec fn full_response(
    img: Image,
    r: int,
    circle: Seq<(i64, i64)>,
    x: int,
    y: int,
    m: int,
) -> int
    decreases m,
{
    if m <= 1 {
        rough_lr(img, r, x, y)
    } else {
        min_int(full_response(img, r, circle, x, y, m - 1), pair_response(img, circle, x, y, m - 1))
    }
}

/// Corner response of `(x, y)`: the minimum over all circle pairs.
pub open spec fn corner_response(img: Image, r: int, circle: Seq<(i64, i64)>, x: int, y: int) -> int {
    full_response(img, r, circle, x, y, (circle.len() / 2) as int)
}

/// The corner test: the rough responses are not below the threshold and
/// the full response is above it.
pub open spec fn is_corner(
    img: Image,
    r: int,
    circle: Seq<(i64, i64)>,
    t: ResponseThreshold,
    x: int,
    y: int,
) -> bool {
    &&& !t.below(min_int(rough_lr(img, r, x, y), rough_tb(img, r, x, y)))
    &&& t.above(corner_response(img, r, circle, x, y))
}

/// Corners among pixels `r..x_end` of row `y`, left to right.
pub open spec fn row_corners(
    img: Image,
    r: int,
    circle: Seq<(i64, i64)>,
    t: ResponseThreshold,
    y: int,
    x_end: int,
) -> Seq<Corner>
    decreases x_end - r,
{
    if x_end <= r {
        Seq::empty()
    } else {
        let x = x_end - 1;
        let prev = row_corners(img, r, circle, t, y, x);
        if is_corner(img, r, circle, t, x, y) {
            prev.push(
                Corner {
                    x: x as usize,
                    y: y as usize,
                    response: corner_response(img, r, circle, x, y) as i64,
                },
            )
        } else {
            prev
        }
    }
}

/// Corners of rows `r..y_end` whose pixels are at least `r` away from the
/// left and right borders, in raster order.
pub open spec fn corners_upto(
    img: Image,
    r: int,
    circle: Seq<(i64, i64)>,
    t: ResponseThreshold,
    y_end: int,
) -> Seq<Corner>
    decreases y_end - r,
{
    if y_end <= r {
        Seq::empty()
    } else {
        corners_upto(img, r, circle, t, y_end - 1) + row_corners(
            img,
            r,
            circle,
            t,
            y_end - 1,
            img.width - r,
        )
    }
}

/// All corners of the image: pixels at least `r` away from every border
/// that pass the corner test, in raster order.
pub open spec fn all_corners(img: Image, r: int, circle: Seq<(i64, i64)>, t: ResponseThreshold) -> Seq<
    Corner,
> {
    corners_upto(img, r, circle, t, img.height - r)
}

pub open spec fn circle_within(circle: Seq<(i64, i64)>, r: int) -> bool {
    forall|i: int|
        0 <= i < circle.len() ==> -r <= (#[trigger] circle[i]).0 <= r && -r <= circle[i].1 <= r
}

proof fn lemma_gray_index(img: Image, x: int, y: int)
    requires
        img.wf(),
        img.channels == 1,
        0 <= x < img.width,
        0 <= y < img.height,
    ensures
        0 <= y * img.width + x < img.data@.len(),
        0 <= gray_at(img, x, y) <= 255,
{
    lemma_lin_bound(y, img.width as int, x, img.height as int);
    assert(img.height * img.width == img.width * img.height * 1) by (nonlinear_arith);
}

proof fn lemma_full_response_monotone(
    img: Image,
    r: int,
    circle: Seq<(i64, i64)>,
    x: int,
    y: int,
    a: int,
    b: int,
)
    requires
        1 <= a <= b,
    ensures
        full_response(img, r, circle, x, y, b) <= full_response(img, r, circle, x, y, a),
    decreases b - a,
{
    if b > a {
        lemma_full_response_monotone(img, r, circle, x, y, a, b - 1);
    }
}

fn add_offset(v: usize, d: i64) -> (r: usize)
    requires
        0 <= v + d <= usize::MAX,
        d > i64::MIN,
    ensures
        r == v + d,
{
    if d >= 0 {
        v + (d as usize)
    } else {
        v - ((-d) as usize)
    }
}

/// Response of pixel `(x, y)` following the corner test: the rough tests
/// first, then the circle pairs, stopping as soon as the running minimum
/// falls below the threshold. `None` when the pixel is not a corner.
fn corner_test(
    img: &Image,
    radius: u32,
    circle: &Vec<(i64, i64)>,
    threshold: &ResponseThreshold,
    x: usize,
    y: usize,
) -> (r: Option<i64>)
    requires
        img.wf(),
        img.channels == 1,
        radius <= x,
        x + radius < img.width,
        radius <= y,
        y + radius < img.height,
        circle_within(circle@, radius as int),
    ensures
        r is Some <==> is_corner(*img, radius as int, circle@, *threshold, x as int, y as int),
        r matches Some(v) ==> v == corner_response(*img, radius as int, circle@, x as int, y as int),
{
    let ghost im = *img;
    let w = img.width;
    let n_samples = img.data.len();
    let rad = radius as usize;
    proof {
        lemma_gray_index(im, x as int, y as int);
        lemma_gray_index(im, (x + radius) as int, y as int);
        lemma_gray_index(im, (x - radius) as int, y as int);
        lemma_gray_index(im, x as int, (y - radius) as int);
        lemma_gray_index(im, x as int, (y + radius) as int);
    }
    let c = img.data[y * w + x] as i64;
    let l = img.data[y * w + x + rad] as i64;
    let rr = img.data[y * w + x - rad] as i64;
    let crf_lr = calc_crf(c, l, rr);
    let t = img.data[(y - rad) * w + x] as i64;
    let b = img.data[(y + rad) * w + x] as i64;
    let crf_tb = calc_crf(c, t, b);
    proof {
        assert(y * w + x + radius == y * w + (x + radius));
        assert(y * w + x - radius == y * w + (x - radius));
    }
    assert(crf_lr == rough_lr(im, radius as int, x as int, y as int));
    assert(crf_tb == rough_tb(im, radius as int, x as int, y as int));
    let rough = if crf_lr <= crf_tb {
        crf_lr
    } else {
        crf_tb
    };
    if threshold.is_below(rough) {
        return None;
    }
    let n_circle = circle.len();
    let pt_offset = n_circle / 2;
    let mut crf = crf_lr;
    let mut i: usize = 1;
    while i < pt_offset
        invariant
            im == *img,
            img.wf(),
            img.channels == 1,
            w == img.width,
            radius <= x,
            x + radius < img.width,
            radius <= y,
            y + radius < img.height,
            circle_within(circle@, radius as int),
            pt_offset == circle@.len() / 2,
            img.data@.len() <= usize::MAX,
            radius <= u32::MAX,
            1 <= i,
            i <= pt_offset || pt_offset == 0,
            pt_offset == 0 ==> i == 1,
            0 <= c <= 255,
            circle@.len() <= usize::MAX,
            c as int == gray_at(im, x as int, y as int),
            !threshold.below(min_int(rough_lr(im, radius as int, x as int, y as int), rough_tb(im, radius as int, x as int, y as int))),
            crf == full_response(im, radius as int, circle@, x as int, y as int, i as int),
        decreases pt_offset - i,
    {
        let p0 = circle[i];
        let p1 = circle[i + pt_offset];
        let ghost px0 = x + p0.0;
        let ghost py0 = y + p0.1;
        let ghost px1 = x + p1.0;
        let ghost py1 = y + p1.1;
        let x0 = add_offset(x, p0.0);
        let y0 = add_offset(y, p0.1);
        let x1 = add_offset(x, p1.0);
        let y1 = add_offset(y, p1.1);
        proof {
            lemma_gray_index(im, px0, py0);
            lemma_gray_index(im, px1, py1);
        }
        let v0 = img.data[y0 * w + x0] as i64;
        let v1 = img.data[y1 * w + x1] as i64;
        assert(v0 as int == gray_at(im, px0, py0));
        assert(v1 as int == gray_at(im, px1, py1));
        assert(c as int == gray_at(im, x as int, y as int));
        assert(p0 == circle@[i as int]);
        assert(p1 == circle@[i + circle@.len() / 2]);
        let pair = calc_crf(c, v0, v1);
        assert(pair == pair_response(im, circle@, x as int, y as int, i as int));
        if pair < crf {
            crf = pair;
        }
        i = i + 1;
        if threshold.is_below(crf) {
            proof {
                lemma_full_response_monotone(
                    im,
                    radius as int,
                    circle@,
                    x as int,
                    y as int,
                    i as int,
                    pt_offset as int,
                );
            }
            return None;
        }
    }
    proof {
        if pt_offset == 0 {
            assert(full_response(im, radius as int, circle@, x as int, y as int, 0) == rough_lr(
                im,
                radius as int,
                x as int,
                y as int,
            ));
            assert(full_response(im, radius as int, circle@, x as int, y as int, 1) == rough_lr(
                im,
                radius as int,
                x as int,
                y as int,
            ));
        } else {
            assert(i == pt_offset);
        }
    }
    assert(crf == full_response(im, radius as int, circle@, x as int, y as int, pt_offset as int));
    assert(crf == corner_response(im, radius as int, circle@, x as int, y as int));
    if threshold.is_above(crf) {
        Some(crf)
    } else {
        None
    }
}

/// FAST corners of a single-channel image: every pixel at least `radius`
/// away from each border that passes the corner test against `circle`, in
/// raster order, with its corner response.
pub fn detect_corners(
    img: &Image,
    radius: u32,
    circle: &Vec<(i64, i64)>,
    threshold: &ResponseThreshold,
) -> (corners: Vec<Corner>)
    requires
        img.wf(),
        img.channels == 1,
        radius <= img.width,
        radius <= img.height,
        circle_within(circle@, radius as int),
    ensures
        corners@ == all_corners(*img, radius as int, circle@, *threshold),
{
    let ghost im = *img;
    let h = img.height;
    let w = img.width;
    let mut corners: Vec<Corner> = Vec::new();
    let rad = radius as usize;
    let mut y = rad;
    while y < h - rad
        invariant
            im == *img,
            img.wf(),
            img.channels == 1,
            h == img.height,
            w == img.width,
            radius <= w,
            radius <= h,
            circle_within(circle@, radius as int),
            rad == radius,
            radius <= y,
            y <= h - radius || h - radius < radius,
            h - radius < radius ==> y == radius,
            corners@ == corners_upto(im, radius as int, circle@, *threshold, y as int),
        decreases h - y,
    {
        let mut x = rad;
        while x < w - rad
            invariant
                im == *img,
                img.wf(),
                img.channels == 1,
                h == img.height,
                w == img.width,
                radius <= w,
                radius <= h,
                circle_within(circle@, radius as int),
                rad == radius,
                radius <= y < h - radius,
                radius <= x,
                x <= w - radius || w - radius < radius,
                w - radius < radius ==> x == radius,
                corners@ == corners_upto(im, radius as int, circle@, *threshold, y as int)
                    + row_corners(im, radius as int, circle@, *threshold, y as int, x as int),
            decreases w - x,
        {
            let res = corner_test(img, radius, circle, threshold, x, y);
            let ghost before = corners@;
            match res {
                Some(v) => {
                    corners.push(Corner { x, y, response: v });
                },
                None => {},
            }
            assert(corners@ == corners_upto(im, radius as int, circle@, *threshold, y as int)
                + row_corners(im, radius as int, circle@, *threshold, y as int, x + 1));
            x = x + 1;
        }
        proof {
            if w - radius < radius {
                assert(row_corners(im, radius as int, circle@, *threshold, y as int, x as int)
                    =~= Seq::<Corner>::empty());
                assert(row_corners(im, radius as int, circle@, *threshold, y as int, w - radius)
                    =~= Seq::<Corner>::empty());
            }
        }
        y = y + 1;
    }
    proof {
        if h - radius < radius {
            assert(corners_upto(im, radius as int, circle@, *threshold, h - radius) =~= Seq::<
                Corner,
            >::empty());
        }
    }
    corners
}

} // verus!

verus! {

/// `(x - cx) * I(x, y)`: the contribution of pixel `(x, y)` to the first
/// moment along x about column `cx`.
pub open spec fn moment_x_fn(img: Image, cx: int) -> spec_fn(int, int) -> int {
    |y: int, x: int| (x - cx) * gray_at(img, x, y)
}

/// `(y - cy) * I(x, y)`: the contribution of pixel `(x, y)` to the first
/// moment along y about row `cy`.
pub open spec fn moment_y_fn(img: Image, cy: int) -> spec_fn(int, int) -> int {
    |y: int, x: int| (y - cy) * gray_at(img, x, y)
}

proof fn lemma_moment_term(d: int, g: int, r: int)
    requires
        -r <= d <= r,
        0 <= g <= 255,
    ensures
        -255 * r <= d * g <= 255 * r,
{
    assert(-255 * r <= d * g <= 255 * r) by (nonlinear_arith)
        requires
            -r <= d <= r,
            0 <= g <= 255,
    ;
}

/// First moments of the intensity over the `(2 radius + 1)²` square
/// centred on `(cx, cy)`: `(Σ (x - cx) I(x, y), Σ (y - cy) I(x, y))`; the
/// keypoint direction is the angle of this vector.
pub fn intensity_moments(img: &Image, cx: usize, cy: usize, radius: u32) -> (m: (i64, i64))
    requires
        img.wf(),
        img.channels == 1,
        radius <= cx,
        cx + radius < img.width,
        radius <= cy,
        cy + radius < img.height,
        255 * radius * (2 * radius + 1) * (2 * radius + 1) <= i64::MAX,
    ensures
        m.0 == rect_sum(
            moment_x_fn(*img, cx as int),
            cy - radius,
            cx - radius,
            2 * radius + 1,
            2 * radius + 1,
        ),
        m.1 == rect_sum(
            moment_y_fn(*img, cy as int),
            cy - radius,
            cx - radius,
            2 * radius + 1,
            2 * radius + 1,
        ),
{
    let ghost im = *img;
    let ghost fx = moment_x_fn(im, cx as int);
    let ghost fy = moment_y_fn(im, cy as int);
    let rad = radius as usize;
    let n = 2 * rad + 1;
    let w = img.width;
    let n_samples = img.data.len();
    let min_x = cx - rad;
    let min_y = cy - rad;
    let ghost bound = 255 * rad;
    assert(bound * (n * n) <= i64::MAX) by (nonlinear_arith)
        requires
            bound == 255 * rad,
            n == 2 * rad + 1,
            255 * rad * (2 * rad + 1) * (2 * rad + 1) <= i64::MAX,
    ;
    let mut m10: i64 = 0;
    let mut m01: i64 = 0;
    assert(bound * (0 * n) == 0) by (nonlinear_arith);
    let mut yy: usize = 0;
    while yy < n
        invariant
            im == *img,
            img.wf(),
            img.channels == 1,
            w == img.width,
            n_samples == img.data@.len(),
            rad == radius,
            n == 2 * rad + 1,
            min_x == cx - rad,
            min_y == cy - rad,
            cx + rad < img.width,
            cy + rad < img.height,
            bound == 255 * rad,
            bound * (n * n) <= i64::MAX,
            fx == moment_x_fn(im, cx as int),
            fy == moment_y_fn(im, cy as int),
            yy <= n,
            m10 == rect_sum(fx, min_y as int, min_x as int, yy as int, n as int),
            m01 == rect_sum(fy, min_y as int, min_x as int, yy as int, n as int),
            -(bound * (yy * n)) <= m10 <= bound * (yy * n),
            -(bound * (yy * n)) <= m01 <= bound * (yy * n),
        decreases n - yy,
    {
        let y = min_y + yy;
        let mut xx: usize = 0;
        assert(yy * n + 0 == yy * n);
        while xx < n
            invariant
                im == *img,
                img.wf(),
                img.channels == 1,
                w == img.width,
                n_samples == img.data@.len(),
                rad == radius,
                n == 2 * rad + 1,
                min_x == cx - rad,
                min_y == cy - rad,
                cx + rad < img.width,
                cy + rad < img.height,
                bound == 255 * rad,
                bound * (n * n) <= i64::MAX,
                fx == moment_x_fn(im, cx as int),
                fy == moment_y_fn(im, cy as int),
                yy < n,
                y == min_y + yy,
                xx <= n,
                m10 == rect_sum(fx, min_y as int, min_x as int, yy as int, n as int) + row_sum(
                    fx,
                    y as int,
                    min_x as int,
                    xx as int,
                ),
                m01 == rect_sum(fy, min_y as int, min_x as int, yy as int, n as int) + row_sum(
                    fy,
                    y as int,
                    min_x as int,
                    xx as int,
                ),
                -(bound * (yy * n + xx)) <= m10 <= bound * (yy * n + xx),
                -(bound * (yy * n + xx)) <= m01 <= bound * (yy * n + xx),
            decreases n - xx,
        {
            let x = min_x + xx;
            proof {
                lemma_gray_index(im, x as int, y as int);
                lemma_moment_term(x - cx, gray_at(im, x as int, y as int), rad as int);
                lemma_moment_term(y - cy, gray_at(im, x as int, y as int), rad as int);
                assert(bound * (yy * n + xx) + bound == bound * (yy * n + xx + 1))
                    by (nonlinear_arith);
                assert(bound * (yy * n + xx + 1) <= bound * (n * n)) by (nonlinear_arith)
                    requires
                        yy < n,
                        xx < n,
                        bound >= 0,
                ;
            }
            let g = img.data[y * w + x] as i64;
            let dx: i64 = if xx >= rad {
                (xx - rad) as i64
            } else {
                -((rad - xx) as i64)
            };
            let dy: i64 = if yy >= rad {
                (yy - rad) as i64
            } else {
                -((rad - yy) as i64)
            };
            assert(dx * g == fx(y as int, x as int));
            assert(dy * g == fy(y as int, x as int));
            m10 = m10 + dx * g;
            m01 = m01 + dy * g;
            xx = xx + 1;
        }
        proof {
            assert(yy * n + n == (yy + 1) * n) by (nonlinear_arith);
        }
        yy = yy + 1;
    }
    (m10, m01)
}


proof fn lemma_row_sum_single(f: spec_fn(int, int) -> int, y: int, x0: int, w: int, px: int)
    requires
        0 <= w,
        forall|x: int| x0 <= x < x0 + w && x != px ==> #[trigger] f(y, x) == 0,
    ensures
        row_sum(f, y, x0, w) == if x0 <= px < x0 + w {
            f(y, px)
        } else {
            0
        },
    decreases w,
{
    if w > 0 {
        lemma_row_sum_single(f, y, x0, w - 1, px);
    }
}

proof fn lemma_rect_sum_single(
    f: spec_fn(int, int) -> int,
    y0: int,
    x0: int,
    h: int,
    w: int,
    px: int,
    py: int,
)
    requires
        0 <= h,
        0 <= w,
        forall|y: int, x: int|
            y0 <= y < y0 + h && x0 <= x < x0 + w && !(x == px && y == py) ==> #[trigger] f(y, x)
                == 0,
    ensures
        rect_sum(f, y0, x0, h, w) == if y0 <= py < y0 + h && x0 <= px < x0 + w {
            f(py, px)
        } else {
            0
        },
    decreases h,
{
    if h > 0 {
        lemma_rect_sum_single(f, y0, x0, h - 1, w, px, py);
        let y = y0 + h - 1;
        if y == py {
            lemma_row_sum_single(f, y, x0, w, px);
        } else {
            lemma_row_sum_single(f, y, x0, w, x0 - 1);
        }
    }
}

/// The intensity moments are linear in the pixel offsets: when the only
/// pixel of the `(2 r + 1)²` window around `(cx, cy)` that may be non-zero
/// is `(px, py)`, with value `v`, the moments are
/// `((px - cx) * v, (py - cy) * v)`.
pub proof fn lemma_moments_of_single_pixel(img: Image, cx: int, cy: int, r: int, px: int, py: int)
    requires
        0 <= r,
        cx - r <= px <= cx + r,
        cy - r <= py <= cy + r,
        forall|x: int, y: int|
            cx - r <= x <= cx + r && cy - r <= y <= cy + r && !(x == px && y == py)
                ==> #[trigger] gray_at(img, x, y) == 0,
    ensures
        rect_sum(moment_x_fn(img, cx), cy - r, cx - r, 2 * r + 1, 2 * r + 1) == (px - cx)
            * img.data@[py * img.width + px],
        rect_sum(moment_y_fn(img, cy), cy - r, cx - r, 2 * r + 1, 2 * r + 1) == (py - cy)
            * img.data@[py * img.width + px],
{
    let fx = moment_x_fn(img, cx);
    let fy = moment_y_fn(img, cy);
    assert forall|y: int, x: int|
        cy - r <= y < cy - r + (2 * r + 1) && cx - r <= x < cx - r + (2 * r + 1) && !(x == px
            && y == py) implies #[trigger] fx(y, x) == 0 by {
        assert(gray_at(img, x, y) == 0);
    }
    assert forall|y: int, x: int|
        cy - r <= y < cy - r + (2 * r + 1) && cx - r <= x < cx - r + (2 * r + 1) && !(x == px
            && y == py) implies #[trigger] fy(y, x) == 0 by {
        assert(gray_at(img, x, y) == 0);
    }
    lemma_rect_sum_single(fx, cy - r, cx - r, 2 * r + 1, 2 * r + 1, px, py);
    lemma_rect_sum_single(fy, cy - r, cx - r, 2 * r + 1, 2 * r + 1, px, py);
}

} // verus!

verus! {

proof fn lemma_crf_range(c: int, a: int, b: int)
    requires
        0 <= c <= 255,
        0 <= a <= 255,
        0 <= b <= 255,
    ensures
        0 <= crf_spec(c, a, b) <= 130050,
{
    assert(0 <= (a - c) * (a - c) <= 65025 && 0 <= (b - c) * (b - c) <= 65025) by (nonlinear_arith)
        requires
            -255 <= a - c <= 255,
            -255 <= b - c <= 255,
    ;
}

proof fn lemma_full_response_range(
    img: Image,
    r: int,
    circle: Seq<(i64, i64)>,
    x: int,
    y: int,
    m: int,
)
    ensures
        0 <= full_response(img, r, circle, x, y, m) <= 130050,
    decreases m,
{
    lemma_crf_range(gray_at(img, x, y), gray_at(img, x + r, y), gray_at(img, x - r, y));
    if m > 1 {
        lemma_full_response_range(img, r, circle, x, y, m - 1);
        let h = circle.len() / 2;
        lemma_crf_range(
            gray_at(img, x, y),
            gray_at(img, x + circle[m - 1].0, y + circle[m - 1].1),
            gray_at(img, x + circle[m - 1 + h].0, y + circle[m - 1 + h].1),
        );
    }
}

/// A corner is reported at `(x, y)`.
pub open spec fn reported_at(cs: Seq<Corner>, x: int, y: int) -> bool {
    exists|i: int| 0 <= i < cs.len() && (#[trigger] cs[i]).x == x && cs[i].y == y
}

proof fn lemma_row_corners_props(
    img: Image,
    r: int,
    circle: Seq<(i64, i64)>,
    t: ResponseThreshold,
    y: int,
    x_end: int,
)
    requires
        0 <= r,
        0 <= y < img.height,
        x_end <= img.width,
    ensures
        forall|i: int|
            0 <= i < row_corners(img, r, circle, t, y, x_end).len() ==> {
                let c = #[trigger] row_corners(img, r, circle, t, y, x_end)[i];
                &&& c.y == y
                &&& r <= c.x < x_end
                &&& is_corner(img, r, circle, t, c.x as int, y)
                &&& c.response == corner_response(img, r, circle, c.x as int, y)
            },
        forall|i: int, j: int|
            0 <= i < j < row_corners(img, r, circle, t, y, x_end).len() ==> (#[trigger] row_corners(
                img,
                r,
                circle,
                t,
                y,
                x_end,
            )[i]).x < (#[trigger] row_corners(img, r, circle, t, y, x_end)[j]).x,
        forall|x: int|
            r <= x < x_end && #[trigger] is_corner(img, r, circle, t, x, y) ==> reported_at(
                row_corners(img, r, circle, t, y, x_end),
                x,
                y,
            ),
    decreases x_end - r,
{
    if x_end > r {
        let x = x_end - 1;
        lemma_row_corners_props(img, r, circle, t, y, x);
        lemma_full_response_range(img, r, circle, x, y, (circle.len() / 2) as int);
        let prev = row_corners(img, r, circle, t, y, x);
        let cur = row_corners(img, r, circle, t, y, x_end);
        assert forall|xx: int|
            r <= xx < x_end && #[trigger] is_corner(img, r, circle, t, xx, y) implies reported_at(
            cur,
            xx,
            y,
        ) by {
            if xx == x {
                assert(cur[cur.len() - 1].x == xx && cur[cur.len() - 1].y == y);
            } else {
                let i = choose|i: int| 0 <= i < prev.len() && (#[trigger] prev[i]).x == xx && prev[i].y
                    == y;
                assert(cur[i] == prev[i]);
            }
        }
    }
}

proof fn lemma_full_response_min(
    img: Image,
    r: int,
    circle: Seq<(i64, i64)>,
    x: int,
    y: int,
    m: int,
)
    ensures
        full_response(img, r, circle, x, y, m) <= rough_lr(img, r, x, y),
        forall|i: int|
            1 <= i < m ==> full_response(img, r, circle, x, y, m) <= #[trigger] pair_response(
                img,
                circle,
                x,
                y,
                i,
            ),
        full_response(img, r, circle, x, y, m) == rough_lr(img, r, x, y) || exists|i: int|
            1 <= i < m && full_response(img, r, circle, x, y, m) == #[trigger] pair_response(
                img,
                circle,
                x,
                y,
                i,
            ),
    decreases m,
{
    if m > 1 {
        lemma_full_response_min(img, r, circle, x, y, m - 1);
        let prev = full_response(img, r, circle, x, y, m - 1);
        let last = pair_response(img, circle, x, y, m - 1);
        assert forall|i: int| 1 <= i < m implies full_response(img, r, circle, x, y, m)
            <= #[trigger] pair_response(img, circle, x, y, i) by {
            if i < m - 1 {
                assert(prev <= pair_response(img, circle, x, y, i));
            }
        }
        if last < prev {
            assert(full_response(img, r, circle, x, y, m) == pair_response(img, circle, x, y, m - 1));
        }
    }
}

/// The FAST corner test, over the samples of the image: a reported corner
/// is a pixel whose response beats the threshold against its left-right
/// neighbours and, for every `1 <= i < len / 2`, against circle points `i`
/// and `i + len / 2`, with no rough response below the threshold; its
/// reported response is the smallest of those responses. Every pixel at
/// least `r` inside the image that passes all these tests is reported.
pub proof fn lemma_corner_test_over_samples(
    img: Image,
    r: int,
    circle: Seq<(i64, i64)>,
    t: ResponseThreshold,
)
    requires
        0 <= r,
    ensures
        forall|k: int|
            0 <= k < all_corners(img, r, circle, t).len() ==> {
                let c = #[trigger] all_corners(img, r, circle, t)[k];
                let px = |dx: int, dy: int| img.data@[(c.y + dy) * img.width + (c.x + dx)] as int;
                let h = circle.len() / 2;
                let lr = (px(r, 0) - px(0, 0)) * (px(r, 0) - px(0, 0)) + (px(-r, 0) - px(0, 0)) * (
                px(-r, 0) - px(0, 0));
                let tb = (px(0, -r) - px(0, 0)) * (px(0, -r) - px(0, 0)) + (px(0, r) - px(0, 0)) * (
                px(0, r) - px(0, 0));
                &&& r <= c.x < img.width - r
                &&& r <= c.y < img.height - r
                &&& c.response > t.floor
                &&& if t.integral {
                    lr >= t.floor && tb >= t.floor
                } else {
                    lr > t.floor && tb > t.floor
                }
                &&& c.response <= lr
                &&& forall|i: int|
                    1 <= i < h ==> c.response <= (px((#[trigger] circle[i]).0 as int, circle[i].1 as int)
                        - px(0, 0)) * (px(circle[i].0 as int, circle[i].1 as int) - px(0, 0)) + (px(
                        circle[i + h].0 as int,
                        circle[i + h].1 as int,
                    ) - px(0, 0)) * (px(circle[i + h].0 as int, circle[i + h].1 as int) - px(0, 0))
                &&& c.response == lr || exists|i: int|
                    1 <= i < h && c.response == (px((#[trigger] circle[i]).0 as int, circle[i].1 as int)
                        - px(0, 0)) * (px(circle[i].0 as int, circle[i].1 as int) - px(0, 0)) + (px(
                        circle[i + h].0 as int,
                        circle[i + h].1 as int,
                    ) - px(0, 0)) * (px(circle[i + h].0 as int, circle[i + h].1 as int) - px(0, 0))
            },
        forall|x: int, y: int|
            {
                let px = |dx: int, dy: int| img.data@[(y + dy) * img.width + (x + dx)] as int;
                let h = circle.len() / 2;
                let lr = (px(r, 0) - px(0, 0)) * (px(r, 0) - px(0, 0)) + (px(-r, 0) - px(0, 0)) * (
                px(-r, 0) - px(0, 0));
                let tb = (px(0, -r) - px(0, 0)) * (px(0, -r) - px(0, 0)) + (px(0, r) - px(0, 0)) * (
                px(0, r) - px(0, 0));
                &&& r <= x < img.width - r
                &&& r <= y < img.height - r
                &&& lr > t.floor
                &&& (if t.integral {
                    tb >= t.floor
                } else {
                    tb > t.floor
                })
                &&& forall|i: int|
                    1 <= i < h ==> (px((#[trigger] circle[i]).0 as int, circle[i].1 as int) - px(0, 0))
                        * (px(circle[i].0 as int, circle[i].1 as int) - px(0, 0)) + (px(
                        circle[i + h].0 as int,
                        circle[i + h].1 as int,
                    ) - px(0, 0)) * (px(circle[i + h].0 as int, circle[i + h].1 as int) - px(0, 0))
                        > t.floor
            } ==> #[trigger] reported_at(all_corners(img, r, circle, t), x, y),
{
    let all = all_corners(img, r, circle, t);
    let h: int = (circle.len() / 2) as int;
    lemma_all_corners_props(img, r, circle, t, img.height - r);
    lemma_full_response_min_all(img, r, circle, h);
    assert forall|k: int| 0 <= k < all.len() implies (#[trigger] all[k]).response == rough_lr(
        img,
        r,
        all[k].x as int,
        all[k].y as int,
    ) || exists|i: int|
        1 <= i < h && all[k].response == #[trigger] pair_response(
            img,
            circle,
            all[k].x as int,
            all[k].y as int,
            i,
        ) by {
        assert(all[k].response == full_response(img, r, circle, all[k].x as int, all[k].y as int, h));
    }
    assert forall|k: int, i: int|
        #![trigger all[k], circle[i]]
        0 <= k < all.len() && 1 <= i < h implies all[k].response <= pair_response(
            img,
            circle,
            all[k].x as int,
            all[k].y as int,
            i,
        ) by {
        assert(all[k].response == full_response(img, r, circle, all[k].x as int, all[k].y as int, h));
        assert(full_response(img, r, circle, all[k].x as int, all[k].y as int, h) <= pair_response(
            img,
            circle,
            all[k].x as int,
            all[k].y as int,
            i,
        ));
    }
    assert forall|x: int, y: int|
        r <= x < img.width - r && r <= y < img.height - r && rough_lr(img, r, x, y) > t.floor
            && !t.below(rough_tb(img, r, x, y)) && (forall|i: int|
            1 <= i < h ==> #[trigger] pair_response(img, circle, x, y, i) > t.floor) implies #[trigger] reported_at(
        all,
        x,
        y,
    ) by {
        let cr = full_response(img, r, circle, x, y, h);
        if cr != rough_lr(img, r, x, y) {
            let i = choose|i: int| 1 <= i < h && cr == #[trigger] pair_response(img, circle, x, y, i);
            assert(pair_response(img, circle, x, y, i) > t.floor);
        }
        assert(is_corner(img, r, circle, t, x, y));
    }
}

proof fn lemma_full_response_min_all(img: Image, r: int, circle: Seq<(i64, i64)>, m: int)
    ensures
        forall|x: int, y: int|
            {
                &&& #[trigger] full_response(img, r, circle, x, y, m) <= rough_lr(img, r, x, y)
                &&& forall|i: int|
                    1 <= i < m ==> full_response(img, r, circle, x, y, m) <= #[trigger] pair_response(
                        img,
                        circle,
                        x,
                        y,
                        i,
                    )
                &&& full_response(img, r, circle, x, y, m) == rough_lr(img, r, x, y) || exists|i: int|
                    1 <= i < m && full_response(img, r, circle, x, y, m) == #[trigger] pair_response(
                        img,
                        circle,
                        x,
                        y,
                        i,
                    )
            },
{
    assert forall|x: int, y: int|
        {
            &&& #[trigger] full_response(img, r, circle, x, y, m) <= rough_lr(img, r, x, y)
            &&& forall|i: int|
                1 <= i < m ==> full_response(img, r, circle, x, y, m) <= #[trigger] pair_response(
                    img,
                    circle,
                    x,
                    y,
                    i,
                )
            &&& full_response(img, r, circle, x, y, m) == rough_lr(img, r, x, y) || exists|i: int|
                1 <= i < m && full_response(img, r, circle, x, y, m) == #[trigger] pair_response(
                    img,
                    circle,
                    x,
                    y,
                    i,
                )
        } by {
        lemma_full_response_min(img, r, circle, x, y, m);
    }
}

/// What `detect_corners` reports: exactly the pixels at least `r` away
/// from every border that pass the corner test, each once, in raster order,
/// with its corner response.
pub proof fn lemma_all_corners_props(
    img: Image,
    r: int,
    circle: Seq<(i64, i64)>,
    t: ResponseThreshold,
    y_end: int,
)
    requires
        0 <= r,
        y_end <= img.height - r,
    ensures
        forall|i: int|
            0 <= i < corners_upto(img, r, circle, t, y_end).len() ==> {
                let c = #[trigger] corners_upto(img, r, circle, t, y_end)[i];
                &&& r <= c.y < y_end
                &&& r <= c.x < img.width - r
                &&& is_corner(img, r, circle, t, c.x as int, c.y as int)
                &&& c.response == corner_response(img, r, circle, c.x as int, c.y as int)
            },
        forall|i: int, j: int|
            0 <= i < j < corners_upto(img, r, circle, t, y_end).len() ==> {
                let a = #[trigger] corners_upto(img, r, circle, t, y_end)[i];
                let b = #[trigger] corners_upto(img, r, circle, t, y_end)[j];
                a.y < b.y || (a.y == b.y && a.x < b.x)
            },
        forall|x: int, y: int|
            r <= x < img.width - r && r <= y < y_end && #[trigger] is_corner(img, r, circle, t, x, y)
                ==> reported_at(corners_upto(img, r, circle, t, y_end), x, y),
    decreases y_end - r,
{
    if y_end > r {
        let y = y_end - 1;
        lemma_all_corners_props(img, r, circle, t, y);
        lemma_row_corners_props(img, r, circle, t, y, img.width - r);
        let prev = corners_upto(img, r, circle, t, y);
        let row = row_corners(img, r, circle, t, y, img.width - r);
        let cur = corners_upto(img, r, circle, t, y_end);
        assert(cur == prev + row);
        assert forall|i: int| 0 <= i < cur.len() implies {
            let c = #[trigger] cur[i];
            &&& r <= c.y < y_end
            &&& r <= c.x < img.width - r
            &&& is_corner(img, r, circle, t, c.x as int, c.y as int)
            &&& c.response == corner_response(img, r, circle, c.x as int, c.y as int)
        } by {
            if i >= prev.len() {
                assert(cur[i] == row[i - prev.len()]);
            } else {
                assert(cur[i] == prev[i]);
            }
        }
        assert forall|i: int, j: int| 0 <= i < j < cur.len() implies {
            let a = #[trigger] cur[i];
            let b = #[trigger] cur[j];
            a.y < b.y || (a.y == b.y && a.x < b.x)
        } by {
            if j < prev.len() {
                assert(cur[i] == prev[i] && cur[j] == prev[j]);
            } else if i >= prev.len() {
                assert(cur[i] == row[i - prev.len()] && cur[j] == row[j - prev.len()]);
            } else {
                assert(cur[i] == prev[i] && cur[j] == row[j - prev.len()]);
            }
        }
        assert forall|x: int, yy: int|
            r <= x < img.width - r && r <= yy < y_end && #[trigger] is_corner(
                img,
                r,
                circle,
                t,
                x,
                yy,
            ) implies reported_at(cur, x, yy) by {
            if yy == y {
                let j = choose|j: int| 0 <= j < row.len() && (#[trigger] row[j]).x == x && row[j].y
                    == yy;
                assert(cur[prev.len() + j] == row[j]);
            } else {
                let i = choose|i: int| 0 <= i < prev.len() && (#[trigger] prev[i]).x == x && prev[i].y
                    == yy;
                assert(cur[i] == prev[i]);
            }
        }
    }
}

} // verus!

verus! {

/// Entry `a` comes before entry `b` when its response is smaller, or equal
/// and `a` is earlier in the list.
pub open spec fn response_before(resp: Seq<i64>, a: int, b: int) -> bool {
    resp[a] < resp[b] || (resp[a] == resp[b] && a < b)
}

/// `p` lists the positions of `resp` ordered by response, ties in list
/// order (a stable sort by response); as the order is strict, each position
/// occurs exactly once.
pub open spec fn is_response_order(resp: Seq<i64>, p: Seq<usize>) -> bool {
    &&& p.len() == resp.len()
    &&& forall|i: int| 0 <= i < p.len() ==> #[trigger] p[i] < resp.len()
    &&& forall|i: int, j: int|
        0 <= i < j < p.len() ==> response_before(resp, #[trigger] p[i] as int, #[trigger] p[j] as int)
}

/// An ordering by response is a stable sort: it lists every position
/// exactly once, responses never decrease along it, and positions of equal
/// response keep their order.
pub proof fn lemma_response_order_is_stable_sort(resp: Seq<i64>, p: Seq<usize>)
    requires
        is_response_order(resp, p),
    ensures
        p.len() == resp.len(),
        forall|i: int| 0 <= i < p.len() ==> #[trigger] p[i] < resp.len(),
        forall|i: int, j: int| 0 <= i < j < p.len() ==> #[trigger] p[i] != #[trigger] p[j],
        forall|k: usize| k < resp.len() ==> #[trigger] p.contains(k),
        forall|i: int, j: int|
            0 <= i < j < p.len() ==> resp[#[trigger] p[i] as int] <= resp[#[trigger] p[j] as int],
        forall|i: int, j: int|
            0 <= i < j < p.len() && resp[#[trigger] p[i] as int] == resp[#[trigger] p[j] as int]
                ==> p[i] < p[j],
{
    let n = resp.len();
    assert forall|i: int, j: int| 0 <= i < j < p.len() implies #[trigger] p[i] != #[trigger] p[j] by {
        assert(response_before(resp, p[i] as int, p[j] as int));
    }
    assert forall|k: usize| k < n implies #[trigger] p.contains(k) by {
        lemma_distinct_below_covers(p, n as int, k as int);
    }
}

proof fn lemma_distinct_below_covers(p: Seq<usize>, n: int, k: int)
    requires
        p.len() == n,
        forall|i: int| 0 <= i < p.len() ==> #[trigger] p[i] < n,
        forall|i: int, j: int| 0 <= i < j < p.len() ==> #[trigger] p[i] != #[trigger] p[j],
        0 <= k < n,
    ensures
        exists|i: int| 0 <= i < p.len() && #[trigger] p[i] == k,
{
    let vals = p.map_values(|v: usize| v as int).to_set();
    let below = Set::new(|v: int| 0 <= v < n);
    assert(p.map_values(|v: usize| v as int).no_duplicates()) by {
        let q = p.map_values(|v: usize| v as int);
        assert forall|i: int, j: int| 0 <= i < q.len() && 0 <= j < q.len() && i != j implies q[i]
            != q[j] by {
            if i < j {
                assert(p[i] != p[j]);
            } else {
                assert(p[j] != p[i]);
            }
        }
    }
    p.map_values(|v: usize| v as int).unique_seq_to_set();
    assert(vals.subset_of(below));
    vstd::set_lib::lemma_int_range(0, n);
    assert(below =~= vstd::set_lib::set_int_range(0, n));
    if !vals.contains(k) {
        vstd::set_lib::lemma_len_subset(vals, below.remove(k));
        assert(false);
    }
    let q = p.map_values(|v: usize| v as int);
    assert(q.contains(k));
    let i = choose|i: int| 0 <= i < q.len() && #[trigger] q[i] == k;
    assert(p[i] == k);
}

/// The responses of a list of corners.
pub open spec fn responses_of(corners: Seq<Corner>) -> Seq<i64> {
    Seq::new(corners.len(), |k: int| corners[k].response)
}

/// Positions of `responses` in non-decreasing order of response, equal
/// responses keeping their order (binary insertion sort).
pub fn order_by_response(responses: &Vec<i64>) -> (p: Vec<usize>)
    ensures
        is_response_order(responses@, p@),
{
    let n = responses.len();
    let mut p: Vec<usize> = Vec::new();
    let mut t: usize = 0;
    while t < n
        invariant
            n == responses@.len(),
            t <= n,
            p@.len() == t,
            forall|i: int| 0 <= i < p@.len() ==> #[trigger] p@[i] < t,
            forall|i: int, j: int|
                0 <= i < j < p@.len() ==> response_before(
                    responses@,
                    #[trigger] p@[i] as int,
                    #[trigger] p@[j] as int,
                ),
        decreases n - t,
    {
        let r = responses[t];
        let mut lo: usize = 0;
        let mut hi: usize = p.len();
        while lo < hi
            invariant
                n == responses@.len(),
                t < n,
                p@.len() == t,
                r == responses@[t as int],
                lo <= hi <= p@.len(),
                forall|i: int| 0 <= i < p@.len() ==> #[trigger] p@[i] < t,
                forall|i: int, j: int|
                    0 <= i < j < p@.len() ==> response_before(
                        responses@,
                        #[trigger] p@[i] as int,
                        #[trigger] p@[j] as int,
                    ),
                forall|i: int| 0 <= i < lo ==> responses@[#[trigger] p@[i] as int] <= r,
                forall|i: int| hi <= i < p@.len() ==> responses@[#[trigger] p@[i] as int] > r,
            decreases hi - lo,
        {
            let mid = lo + (hi - lo) / 2;
            let pm = p[mid];
            if responses[pm] <= r {
                assert forall|i: int| 0 <= i <= mid implies responses@[#[trigger] p@[i] as int]
                    <= r by {
                    if i < mid {
                        assert(response_before(responses@, p@[i] as int, p@[mid as int] as int));
                    }
                }
                lo = mid + 1;
            } else {
                assert forall|i: int| mid <= i < p@.len() implies responses@[#[trigger] p@[i] as int]
                    > r by {
                    if i > mid {
                        assert(response_before(responses@, p@[mid as int] as int, p@[i] as int));
                    }
                }
                hi = mid;
            }
        }
        let ghost old_p = p@;
        p.insert(lo, t);
        proof {
            old_p.insert_ensures(lo as int, t);
            assert forall|i: int| 0 <= i < p@.len() implies #[trigger] p@[i] < t + 1 by {
                if i > lo {
                    assert(p@[i] == old_p[i - 1]);
                }
            }
            assert forall|i: int, j: int| 0 <= i < j < p@.len() implies response_before(
                responses@,
                #[trigger] p@[i] as int,
                #[trigger] p@[j] as int,
            ) by {
                if j < lo {
                    assert(p@[i] == old_p[i] && p@[j] == old_p[j]);
                } else if j == lo {
                    assert(p@[i] == old_p[i]);
                    assert(responses@[old_p[i] as int] <= r);
                } else if i < lo {
                    assert(p@[i] == old_p[i] && p@[j] == old_p[j - 1]);
                    assert(response_before(responses@, old_p[i] as int, old_p[j - 1] as int));
                } else if i == lo {
                    assert(p@[j] == old_p[j - 1]);
                    assert(responses@[old_p[j - 1] as int] > r);
                } else {
                    assert(p@[i] == old_p[i - 1] && p@[j] == old_p[j - 1]);
                    assert(response_before(responses@, old_p[i - 1] as int, old_p[j - 1] as int));
                }
            }
        }
        t = t + 1;
    }
    p
}

/// The FAST corners of `detect_corners` ordered by response, non-decreasing,
/// corners of equal response in raster order.
pub fn detect_corners_by_response(
    img: &Image,
    radius: u32,
    circle: &Vec<(i64, i64)>,
    threshold: &ResponseThreshold,
) -> (corners: Vec<Corner>)
    requires
        img.wf(),
        img.channels == 1,
        radius <= img.width,
        radius <= img.height,
        circle_within(circle@, radius as int),
    ensures
        exists|p: Seq<usize>|
            #![trigger is_response_order(
                responses_of(all_corners(*img, radius as int, circle@, *threshold)),
                p,
            )]
            {
                let all = all_corners(*img, radius as int, circle@, *threshold);
                &&& is_response_order(responses_of(all), p)
                &&& corners@.len() == p.len()
                &&& forall|i: int| 0 <= i < p.len() ==> #[trigger] corners@[i] == all[p[i] as int]
            },
{
    let raster = detect_corners(img, radius, circle, threshold);
    let n = raster.len();
    let mut responses: Vec<i64> = Vec::new();
    let mut i: usize = 0;
    while i < n
        invariant
            n == raster@.len(),
            i <= n,
            responses@.len() == i,
            forall|k: int| 0 <= k < i ==> #[trigger] responses@[k] == raster@[k].response,
        decreases n - i,
    {
        responses.push(raster[i].response);
        i = i + 1;
    }
    assert(responses@ =~= responses_of(raster@));
    let order = order_by_response(&responses);
    let mut corners: Vec<Corner> = Vec::new();
    let mut j: usize = 0;
    while j < n
        invariant
            n == raster@.len(),
            is_response_order(responses_of(raster@), order@),
            j <= n,
            corners@.len() == j,
            forall|k: int| 0 <= k < j ==> #[trigger] corners@[k] == raster@[order@[k] as int],
        decreases n - j,
    {
        let k = order[j];
        corners.push(raster[k]);
        j = j + 1;
    }
    assert(is_response_order(responses_of(raster@), order@));
    corners
}

} // verus!
