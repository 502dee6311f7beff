//! Box (mean) filtering of images through an integral image.
use vstd::prelude::*;

use crate::image::{clamp_coord, padding, Image};
use crate::raster::{
    chan_of, col_of, idx3, lemma_idx3_bound, lemma_idx3_decode, lemma_idx3_encode,
    lemma_idx3_neighbours, lemma_idx3_next, lemma_prod3_bounds, row_of,
};

verus! {

/// `f(y, x0) + f(y, x0 + 1) + ... + f(y, x0 + w - 1)`.
pub open spec fn row_sum(f: spec_fn(int, int) -> int, y: int, x0: int, w: int) -> int
    decreases w,
{
    if w <= 0 {
        0
    } else {
        row_sum(f, y, x0, w - 1) + f(y, x0 + w - 1)
    }
}

/// Sum of `f` over the `h` x `w` rectangle whose top-left corner is
/// `(x0, y0)`.
pub open spec fn rect_sum(f: spec_fn(int, int) -> int, y0: int, x0: int, h: int, w: int) -> int
    decreases h,
{
    if h <= 0 {
        0
    } else {
        rect_sum(f, y0, x0, h - 1, w) + row_sum(f, y0 + h - 1, x0, w)
    }
}

/// Channel `c` of `img` on the whole plane, each position read at the
/// nearest pixel of the image.
pub open spec fn clamped_channel(img: Image, c: int) -> spec_fn(int, int) -> int {
    |y: int, x: int|
        img.sample(clamp_coord(x, img.width as int), clamp_coord(y, img.height as int), c) as int
}

/// Sum of channel `c` over the `k` x `k` window of `img` whose top-left
/// pixel is `(x - k / 2, y - k / 2)`, positions outside the image read at
/// the nearest pixel.
pub open spec fn window_sum(img: Image, k: int, x: int, y: int, c: int) -> int {
    rect_sum(clamped_channel(img, c), y - k / 2, x - k / 2, k, k)
}

pub open spec fn bounded_byte_fn(f: spec_fn(int, int) -> int) -> bool {
    forall|y: int, x: int| 0 <= #[trigger] f(y, x) <= 255
}

pub proof fn lemma_row_sum_bounds(f: spec_fn(int, int) -> int, y: int, x0: int, w: int)
    requires
        bounded_byte_fn(f),
        w >= 0,
    ensures
        0 <= row_sum(f, y, x0, w) <= 255 * w,
    decreases w,
{
    if w > 0 {
        lemma_row_sum_bounds(f, y, x0, w - 1);
        assert(0 <= f(y, x0 + w - 1) <= 255);
    }
}

pub proof fn lemma_rect_sum_bounds(f: spec_fn(int, int) -> int, y0: int, x0: int, h: int, w: int)
    requires
        bounded_byte_fn(f),
        h >= 0,
        w >= 0,
    ensures
        0 <= rect_sum(f, y0, x0, h, w) <= 255 * h * w,
    decreases h,
{
    if h > 0 {
        lemma_rect_sum_bounds(f, y0, x0, h - 1, w);
        lemma_row_sum_bounds(f, y0 + h - 1, x0, w);
        assert(255 * (h - 1) * w + 255 * w == 255 * h * w) by (nonlinear_arith);
    }
}

pub proof fn lemma_row_sum_split(f: spec_fn(int, int) -> int, y: int, x0: int, a: int, b: int)
    requires
        a >= 0,
        b >= 0,
    ensures
        row_sum(f, y, x0, a + b) == row_sum(f, y, x0, a) + row_sum(f, y, x0 + a, b),
    decreases b,
{
    if b > 0 {
        lemma_row_sum_split(f, y, x0, a, b - 1);
    }
}

/// Splitting a rectangle into a left and a right part.
pub proof fn lemma_rect_sum_split_cols(
    f: spec_fn(int, int) -> int,
    y0: int,
    x0: int,
    h: int,
    a: int,
    b: int,
)
    requires
        h >= 0,
        a >= 0,
        b >= 0,
    ensures
        rect_sum(f, y0, x0, h, a + b) == rect_sum(f, y0, x0, h, a) + rect_sum(f, y0, x0 + a, h, b),
    decreases h,
{
    if h > 0 {
        lemma_rect_sum_split_cols(f, y0, x0, h - 1, a, b);
        lemma_row_sum_split(f, y0 + h - 1, x0, a, b);
    }
}

/// Splitting a rectangle into an upper and a lower part.
pub proof fn lemma_rect_sum_split_rows(
    f: spec_fn(int, int) -> int,
    y0: int,
    x0: int,
    a: int,
    b: int,
    w: int,
)
    requires
        a >= 0,
        b >= 0,
    ensures
        rect_sum(f, y0, x0, a + b, w) == rect_sum(f, y0, x0, a, w) + rect_sum(f, y0 + a, x0, b, w),
    decreases b,
{
    if b > 0 {
        lemma_rect_sum_split_rows(f, y0, x0, a, b - 1, w);
    }
}

pub proof fn lemma_rect_sum_no_cols(f: spec_fn(int, int) -> int, y0: int, x0: int, h: int)
    ensures
        rect_sum(f, y0, x0, h, 0) == 0,
    decreases h,
{
    if h > 0 {
        lemma_rect_sum_no_cols(f, y0, x0, h - 1);
    }
}

/// One step of the integral-image recurrence: the prefix sum up to
/// `(x, y)` from the prefix sums up to its left, upper and upper-left
/// neighbours.
pub proof fn lemma_integral_step(f: spec_fn(int, int) -> int, oy: int, ox: int, y: int, x: int)
    requires
        y >= 0,
        x >= 0,
    ensures
        rect_sum(f, oy, ox, y + 1, x + 1) == rect_sum(f, oy, ox, y + 1, x) + rect_sum(
            f,
            oy,
            ox,
            y,
            x + 1,
        ) - rect_sum(f, oy, ox, y, x) + f(oy + y, ox + x),
{
    assert(rect_sum(f, oy, ox, y + 1, x + 1) == rect_sum(f, oy, ox, y, x + 1) + row_sum(
        f,
        oy + y,
        ox,
        x + 1,
    ));
    assert(rect_sum(f, oy, ox, y + 1, x) == rect_sum(f, oy, ox, y, x) + row_sum(f, oy + y, ox, x));
}

/// A window sum from four prefix sums.
pub proof fn lemma_window_from_prefix(
    f: spec_fn(int, int) -> int,
    oy: int,
    ox: int,
    y: int,
    x: int,
    k: int,
)
    requires
        y >= 0,
        x >= 0,
        k >= 0,
    ensures
        rect_sum(f, oy, ox, y + k, x + k) + rect_sum(f, oy, ox, y, x) - rect_sum(
            f,
            oy,
            ox,
            y + k,
            x,
        ) - rect_sum(f, oy, ox, y, x + k) == rect_sum(f, oy + y, ox + x, k, k),
        rect_sum(f, oy, ox, y + k, x + k) + rect_sum(f, oy, ox, y, x) - rect_sum(
            f,
            oy,
            ox,
            y + k,
            x,
        ) == rect_sum(f, oy, ox, y, x + k) + rect_sum(f, oy + y, ox + x, k, k),
{
    lemma_rect_sum_split_rows(f, oy, ox, y, k, x + k);
    lemma_rect_sum_split_rows(f, oy, ox, y, k, x);
    lemma_rect_sum_split_cols(f, oy + y, ox, k, x, k);
}

pub proof fn lemma_rect_sum_const(f: spec_fn(int, int) -> int, v: int, y0: int, x0: int, h: int, w: int)
    requires
        h >= 0,
        w >= 0,
        forall|y: int, x: int| #[trigger] f(y, x) == v,
    ensures
        rect_sum(f, y0, x0, h, w) == v * h * w,
    decreases h,
{
    if h > 0 {
        lemma_rect_sum_const(f, v, y0, x0, h - 1, w);
        lemma_row_sum_const(f, v, y0 + h - 1, x0, w);
        assert(v * (h - 1) * w + v * w == v * h * w) by (nonlinear_arith);
    } else {
        assert(v * 0 * w == 0) by (nonlinear_arith);
    }
}

pub proof fn lemma_row_sum_const(f: spec_fn(int, int) -> int, v: int, y: int, x0: int, w: int)
    requires
        w >= 0,
        forall|y: int, x: int| #[trigger] f(y, x) == v,
    ensures
        row_sum(f, y, x0, w) == v * w,
    decreases w,
{
    if w > 0 {
        lemma_row_sum_const(f, v, y, x0, w - 1);
        assert(f(y, x0 + w - 1) == v);
        assert(v * (w - 1) + v == v * w) by (nonlinear_arith);
    } else {
        assert(v * 0 == 0) by (nonlinear_arith);
    }
}

/// The box filter leaves a constant channel unchanged: on an image whose
/// channel `c` is `v` everywhere, every window mean of that channel is `v`.
pub proof fn lemma_window_mean_of_constant(img: Image, k: int, x: int, y: int, c: int, v: int)
    requires
        img.wf(),
        img.width >= 1,
        img.height >= 1,
        k >= 1,
        forall|xx: int, yy: int|
            0 <= xx < img.width && 0 <= yy < img.height ==> #[trigger] img.sample(xx, yy, c) == v,
    ensures
        window_sum(img, k, x, y, c) / (k * k) == v,
{
    let f = clamped_channel(img, c);
    assert forall|yy: int, xx: int| #[trigger] f(yy, xx) == v by {
        let cx = clamp_coord(xx, img.width as int);
        let cy = clamp_coord(yy, img.height as int);
        assert(img.sample(cx, cy, c) == v);
    }
    lemma_rect_sum_const(f, v, y - k / 2, x - k / 2, k, k);
    assert(v * k * k == v * (k * k)) by (nonlinear_arith);
    assert(k * k > 0) by (nonlinear_arith)
        requires
            k >= 1,
    ;
    vstd::arithmetic::div_mod::lemma_div_by_multiple(v, k * k);
}

/// Value of the integral image of the padded raster at flat position `kk`.
spec fn integral_at(img: Image, pad: int, wp: int, kk: int) -> int {
    rect_sum(
        clamped_channel(img, chan_of(kk, img.channels as int)),
        -pad,
        -pad,
        row_of(kk, wp, img.channels as int) + 1,
        col_of(kk, wp, img.channels as int) + 1,
    )
}

proof fn lemma_clamped_channel_bounded(img: Image, c: int)
    ensures
        bounded_byte_fn(clamped_channel(img, c)),
{
    assert forall|y: int, x: int| 0 <= #[trigger] clamped_channel(img, c)(y, x) <= 255 by {}
}

/// Mean of every `kernel_size` x `kernel_size` window (integer division),
/// computed from the integral image of the image padded by
/// `kernel_size / 2 + 1` edge-replicating pixels; the window of pixel
/// `(x, y)` starts at `(x - kernel_size / 2, y - kernel_size / 2)`.
pub fn median_filter(img: &Image, kernel_size: u32) -> (r: Vec<u8>)
    requires
        img.wf(),
        kernel_size >= 1,
        img.channels == 0 || (img.width >= 1 && img.height >= 1),
        (img.height + 2 * (kernel_size / 2 + 1)) * (img.width + 2 * (kernel_size / 2 + 1))
            * img.channels <= usize::MAX,
        (img.height + 2 * (kernel_size / 2 + 1)) * (img.width + 2 * (kernel_size / 2 + 1)) * 510
            <= u64::MAX,
    ensures
        r@.len() == img.width * img.height * img.channels,
        forall|y: int, x: int, c: int|
            0 <= y < img.height && 0 <= x < img.width && 0 <= c < img.channels ==> #[trigger] r@[idx3(
                y,
                x,
                c,
                img.width as int,
                img.channels as int,
            )] as int == window_sum(*img, kernel_size as int, x, y, c) / (kernel_size
                * kernel_size) as int,
        kernel_size == 1 ==> r@ == img.data@,
{
    let mut dst: Vec<u8> = Vec::new();
    let ch = img.channels;
    if ch == 0 {
        assert(img.width * img.height * img.channels == 0) by (nonlinear_arith)
            requires
                img.channels == 0,
        ;
        return dst;
    }
    let w = img.width;
    let h = img.height;
    let k: usize = kernel_size as usize;
    let pad: usize = k / 2 + 1;
    let padded = padding(img, pad);
    proof {
        lemma_prod3_bounds((h + 2 * pad) as int, (w + 2 * pad) as int, ch as int);
        lemma_prod3_bounds((h + 2 * pad) as int, (w + 2 * pad) as int, 510);
    }
    let hp = h + 2 * pad;
    let wp = w + 2 * pad;
    let ghost total = hp * wp * ch;
    let ghost im = *img;
    assert(idx3(0, 0, 0, wp as int, ch as int) == 0) by (nonlinear_arith);

    // integral image: target[(y, x, c)] is the sum of the padded samples of
    // channel c over rows 0..=y and columns 0..=x
    let mut target: Vec<u64> = Vec::new();
    let mut y: usize = 0;
    while y < hp
        invariant
            im == *img,
            img.wf(),
            w == img.width,
            h == img.height,
            ch == img.channels,
            ch >= 1,
            hp == h + 2 * pad,
            wp == w + 2 * pad,
            total == hp * wp * ch,
            total <= usize::MAX,
            hp * wp <= total,
            hp * wp * 510 <= u64::MAX,
            padded@.len() == total,
            forall|py: int, px: int, c: int|
                0 <= py < hp && 0 <= px < wp && 0 <= c < ch ==> #[trigger] padded@[idx3(
                    py,
                    px,
                    c,
                    wp as int,
                    ch as int,
                )] == img.padded_sample(pad as int, px, py, c),
            y <= hp,
            target@.len() == idx3(y as int, 0, 0, wp as int, ch as int),
            forall|kk: int|
                0 <= kk < target@.len() ==> #[trigger] target@[kk] as int == integral_at(
                    im,
                    pad as int,
                    wp as int,
                    kk,
                ),
        decreases hp - y,
    {
        let mut x: usize = 0;
        while x < wp
            invariant
                im == *img,
                img.wf(),
                w == img.width,
                h == img.height,
                ch == img.channels,
                ch >= 1,
                hp == h + 2 * pad,
                wp == w + 2 * pad,
                total == hp * wp * ch,
                total <= usize::MAX,
                hp * wp <= total,
                hp * wp * 510 <= u64::MAX,
                padded@.len() == total,
                forall|py: int, px: int, c: int|
                    0 <= py < hp && 0 <= px < wp && 0 <= c < ch ==> #[trigger] padded@[idx3(
                        py,
                        px,
                        c,
                        wp as int,
                        ch as int,
                    )] == img.padded_sample(pad as int, px, py, c),
                y < hp,
                x <= wp,
                target@.len() == idx3(y as int, x as int, 0, wp as int, ch as int),
                forall|kk: int|
                    0 <= kk < target@.len() ==> #[trigger] target@[kk] as int == integral_at(
                        im,
                        pad as int,
                        wp as int,
                        kk,
                    ),
            decreases wp - x,
        {
            let mut c: usize = 0;
            while c < ch
                invariant
                    im == *img,
                    img.wf(),
                    w == img.width,
                    h == img.height,
                    ch == img.channels,
                    ch >= 1,
                    hp == h + 2 * pad,
                    wp == w + 2 * pad,
                    total == hp * wp * ch,
                    total <= usize::MAX,
                    hp * wp <= total,
                    hp * wp * 510 <= u64::MAX,
                    padded@.len() == total,
                    forall|py: int, px: int, c: int|
                        0 <= py < hp && 0 <= px < wp && 0 <= c < ch ==> #[trigger] padded@[idx3(
                            py,
                            px,
                            c,
                            wp as int,
                            ch as int,
                        )] == img.padded_sample(pad as int, px, py, c),
                    y < hp,
                    x < wp,
                    c <= ch,
                    target@.len() == idx3(y as int, x as int, c as int, wp as int, ch as int),
                    forall|kk: int|
                        0 <= kk < target@.len() ==> #[trigger] target@[kk] as int == integral_at(
                            im,
                            pad as int,
                            wp as int,
                            kk,
                        ),
                decreases ch - c,
            {
                let i = target.len();
                let ghost f = clamped_channel(im, c as int);
                proof {
                    lemma_idx3_bound(y as int, x as int, c as int, hp as int, wp as int, ch as int);
                    lemma_idx3_decode(y as int, x as int, c as int, wp as int, ch as int);
                    lemma_idx3_neighbours(y as int, x as int, c as int, wp as int, ch as int);
                    lemma_idx3_neighbours(y as int, x as int - 1, c as int, wp as int, ch as int);
                    lemma_clamped_channel_bounded(im, c as int);
                    lemma_integral_step(f, -pad, -pad, y as int, x as int);
                    lemma_rect_sum_bounds(f, -pad, -pad, y as int + 1, x as int);
                    lemma_rect_sum_bounds(f, -pad, -pad, y as int, x as int + 1);
                    lemma_rect_sum_bounds(f, -pad, -pad, y as int, x as int);
                    lemma_rect_sum_bounds(f, -pad, -pad, y as int + 1, x as int + 1);
                    lemma_rect_sum_no_cols(f, -pad, -pad, y as int + 1);
                    lemma_rect_sum_no_cols(f, -pad, -pad, y as int);
                    lemma_row_sum_bounds(f, -pad + y, -pad, x as int);
                    lemma_row_sum_bounds(f, -pad + y, -pad, x as int + 1);
                    assert(255 * (y + 1) * (x + 1) <= 255 * hp * wp) by (nonlinear_arith)
                        requires
                            y < hp,
                            x < wp,
                    ;
                    assert(255 * y * (x + 1) <= 255 * hp * wp) by (nonlinear_arith)
                        requires
                            y < hp,
                            x < wp,
                    ;
                    assert(255 * (y + 1) * x <= 255 * hp * wp) by (nonlinear_arith)
                        requires
                            y < hp,
                            x < wp,
                    ;
                    assert(255 * hp * wp * 2 == hp * wp * 510) by (nonlinear_arith);
                }
                let p: u64 = padded[i] as u64;
                assert(p as int == f(-pad + y, -pad + x));
                let left: u64 = if x > 0 {
                    proof {
                        lemma_idx3_decode(y as int, x as int - 1, c as int, wp as int, ch as int);
                    }
                    target[i - ch]
                } else {
                    0
                };
                assert(left as int == rect_sum(f, -pad, -pad, y + 1, x as int));
                let up: u64 = if y > 0 {
                    proof {
                        lemma_idx3_decode(y as int - 1, x as int, c as int, wp as int, ch as int);
                    }
                    target[i - wp * ch]
                } else {
                    0
                };
                assert(up as int == rect_sum(f, -pad, -pad, y as int, x + 1));
                let up_left: u64 = if x > 0 && y > 0 {
                    proof {
                        lemma_idx3_decode(
                            y as int - 1,
                            x as int - 1,
                            c as int,
                            wp as int,
                            ch as int,
                        );
                    }
                    target[i - wp * ch - ch]
                } else {
                    0
                };
                assert(up_left as int == rect_sum(f, -pad, -pad, y as int, x as int));
                let v = left + up - up_left + p;
                target.push(v);
                proof {
                    lemma_idx3_next(y as int, x as int, c as int, wp as int, ch as int);
                    assert(target@[i as int] as int == integral_at(im, pad as int, wp as int, i as int));
                }
                c = c + 1;
            }
            proof {
                lemma_idx3_next(y as int, x as int, c as int, wp as int, ch as int);
            }
            x = x + 1;
        }
        proof {
            lemma_idx3_next(y as int, x as int, 0, wp as int, ch as int);
        }
        y = y + 1;
    }
    assert(target@.len() == total) by {
        lemma_idx3_next(y as int, 0, 0, wp as int, ch as int);
    }
    let ghost n_out = w * h * ch;
    assert((k as u64) * (k as u64) <= u64::MAX) by (nonlinear_arith)
        requires
            k <= u32::MAX,
    ;
    let area: u64 = (k as u64) * (k as u64);
    assert(area >= 1) by (nonlinear_arith)
        requires
            area == k * k,
            k >= 1,
    ;
    let ghost im = *img;
    assert(idx3(0, 0, 0, w as int, ch as int) == 0) by (nonlinear_arith);
    let mut y: usize = 0;
    while y < h
        invariant
            im == *img,
            img.wf(),
            w == img.width,
            h == img.height,
            ch == img.channels,
            ch >= 1,
            k == kernel_size,
            k >= 1,
            pad == k / 2 + 1,
            area == k * k,
            area >= 1,
            hp == h + 2 * pad,
            wp == w + 2 * pad,
            total == hp * wp * ch,
            total <= usize::MAX,
            hp * wp <= total,
            wp * ch <= total,
            hp * wp * 510 <= u64::MAX,
            target@.len() == total,
            forall|kk: int|
                0 <= kk < target@.len() ==> #[trigger] target@[kk] as int == integral_at(
                    im,
                    pad as int,
                    wp as int,
                    kk,
                ),
            y <= h,
            dst@.len() == idx3(y as int, 0, 0, w as int, ch as int),
            forall|q: int|
                0 <= q < dst@.len() ==> #[trigger] dst@[q] as int == window_sum(
                    im,
                    k as int,
                    col_of(q, w as int, ch as int),
                    row_of(q, w as int, ch as int),
                    chan_of(q, ch as int),
                ) / (k * k) as int,
        decreases h - y,
    {
        let mut x: usize = 0;
        while x < w
            invariant
                im == *img,
                img.wf(),
                w == img.width,
                h == img.height,
                ch == img.channels,
                ch >= 1,
                k == kernel_size,
                k >= 1,
                pad == k / 2 + 1,
                area == k * k,
                area >= 1,
                hp == h + 2 * pad,
                wp == w + 2 * pad,
                total == hp * wp * ch,
                total <= usize::MAX,
                hp * wp <= total,
                wp * ch <= total,
                hp * wp * 510 <= u64::MAX,
                target@.len() == total,
                forall|kk: int|
                    0 <= kk < target@.len() ==> #[trigger] target@[kk] as int == integral_at(
                        im,
                        pad as int,
                        wp as int,
                        kk,
                    ),
                y < h,
                x <= w,
                dst@.len() == idx3(y as int, x as int, 0, w as int, ch as int),
                forall|q: int|
                    0 <= q < dst@.len() ==> #[trigger] dst@[q] as int == window_sum(
                        im,
                        k as int,
                        col_of(q, w as int, ch as int),
                        row_of(q, w as int, ch as int),
                        chan_of(q, ch as int),
                    ) / (k * k) as int,
            decreases w - x,
        {
            let mut c: usize = 0;
            while c < ch
                invariant
                    im == *img,
                    img.wf(),
                    w == img.width,
                    h == img.height,
                    ch == img.channels,
                    ch >= 1,
                    k == kernel_size,
                    k >= 1,
                    pad == k / 2 + 1,
                    area == k * k,
                    area >= 1,
                    hp == h + 2 * pad,
                    wp == w + 2 * pad,
                    total == hp * wp * ch,
                    total <= usize::MAX,
                    hp * wp <= total,
                    wp * ch <= total,
                    hp * wp * 510 <= u64::MAX,
                    target@.len() == total,
                    forall|kk: int|
                        0 <= kk < target@.len() ==> #[trigger] target@[kk] as int == integral_at(
                            im,
                            pad as int,
                            wp as int,
                            kk,
                        ),
                    y < h,
                    x < w,
                    c <= ch,
                    dst@.len() == idx3(y as int, x as int, c as int, w as int, ch as int),
                    forall|q: int|
                        0 <= q < dst@.len() ==> #[trigger] dst@[q] as int == window_sum(
                            im,
                            k as int,
                            col_of(q, w as int, ch as int),
                            row_of(q, w as int, ch as int),
                            chan_of(q, ch as int),
                        ) / (k * k) as int,
                decreases ch - c,
            {
                let ghost f = clamped_channel(im, c as int);
                proof {
                    lemma_idx3_bound(
                        (y + k) as int,
                        (x + k) as int,
                        c as int,
                        hp as int,
                        wp as int,
                        ch as int,
                    );
                    lemma_idx3_bound(y as int, x as int, c as int, hp as int, wp as int, ch as int);
                    lemma_idx3_decode(y as int, x as int, c as int, wp as int, ch as int);
                    lemma_idx3_decode((y + k) as int, x as int, c as int, wp as int, ch as int);
                    lemma_idx3_decode(y as int, (x + k) as int, c as int, wp as int, ch as int);
                    lemma_idx3_decode(
                        (y + k) as int,
                        (x + k) as int,
                        c as int,
                        wp as int,
                        ch as int,
                    );
                    assert(idx3(y as int, (x + k) as int, c as int, wp as int, ch as int) == idx3(
                        y as int,
                        x as int,
                        c as int,
                        wp as int,
                        ch as int,
                    ) + k * ch) by (nonlinear_arith);
                    assert(idx3((y + k) as int, x as int, c as int, wp as int, ch as int) == idx3(
                        y as int,
                        x as int,
                        c as int,
                        wp as int,
                        ch as int,
                    ) + k * (wp * ch)) by (nonlinear_arith);
                    assert(idx3((y + k) as int, (x + k) as int, c as int, wp as int, ch as int)
                        == idx3((y + k) as int, x as int, c as int, wp as int, ch as int) + k * ch)
                        by (nonlinear_arith);
                    assert(k * ch <= k * (wp * ch)) by (nonlinear_arith)
                        requires
                            k <= wp,
                            ch >= 1,
                    ;
                    lemma_clamped_channel_bounded(im, c as int);
                    lemma_window_from_prefix(f, -pad, -pad, y as int + 1, x as int + 1, k as int);
                    lemma_rect_sum_bounds(f, -pad + y + 1, -pad + x + 1, k as int, k as int);
                    lemma_rect_sum_bounds(f, -pad, -pad, y + k + 1, x + k + 1);
                    lemma_rect_sum_bounds(f, -pad, -pad, y + 1, x + 1);
                    assert(255 * (y + k + 1) * (x + k + 1) <= 255 * hp * wp) by (nonlinear_arith)
                        requires
                            y + k + 1 <= hp,
                            x + k + 1 <= wp,
                    ;
                    assert(255 * (y + 1) * (x + 1) <= 255 * hp * wp) by (nonlinear_arith)
                        requires
                            y + k + 1 <= hp,
                            x + k + 1 <= wp,
                    ;
                    assert(255 * hp * wp * 2 == hp * wp * 510) by (nonlinear_arith);
                }
                let i0 = (y * wp + x) * ch + c;
                let i_rt = i0 + k * ch;
                let i_lb = i0 + k * (wp * ch);
                let i_rb = i_lb + k * ch;
                let t0 = target[i0];
                let t_rt = target[i_rt];
                let t_lb = target[i_lb];
                let t_rb = target[i_rb];
                let sum = t_rb + t0 - t_lb - t_rt;
                assert(sum as int == window_sum(im, k as int, x as int, y as int, c as int));
                let mean = sum / area;
                proof {
                    assert(sum as int / (k * k) as int <= 255) by (nonlinear_arith)
                        requires
                            sum <= 255 * k * k,
                            k >= 1,
                    ;
                }
                let ghost q = dst@.len() as int;
                proof {
                    lemma_idx3_decode(y as int, x as int, c as int, w as int, ch as int);
                    lemma_idx3_next(y as int, x as int, c as int, w as int, ch as int);
                }
                dst.push(mean as u8);
                assert(dst@[q] as int == window_sum(
                    im,
                    k as int,
                    col_of(q, w as int, ch as int),
                    row_of(q, w as int, ch as int),
                    chan_of(q, ch as int),
                ) / (k * k) as int);
                c = c + 1;
            }
            proof {
                lemma_idx3_next(y as int, x as int, c as int, w as int, ch as int);
            }
            x = x + 1;
        }
        proof {
            lemma_idx3_next(y as int, x as int, 0, w as int, ch as int);
        }
        y = y + 1;
    }
    proof {
        lemma_idx3_next(y as int, 0, 0, w as int, ch as int);
        assert(y * w * ch == w * h * ch) by (nonlinear_arith)
            requires
                y == h,
        ;
    }
    assert forall|yy: int, xx: int, c: int|
        0 <= yy < img.height && 0 <= xx < img.width && 0 <= c < img.channels implies #[trigger] dst@[idx3(
        yy,
        xx,
        c,
        img.width as int,
        img.channels as int,
    )] as int == window_sum(*img, kernel_size as int, xx, yy, c) / (kernel_size
        * kernel_size) as int by {
        lemma_idx3_bound(yy, xx, c, h as int, w as int, ch as int);
        assert(h * w * ch == w * h * ch) by (nonlinear_arith);
        lemma_idx3_decode(yy, xx, c, w as int, ch as int);
    }
    proof {
        if kernel_size == 1 {
            assert forall|q: int| 0 <= q < dst@.len() implies dst@[q] == img.data@[q] by {
                assert(h * w * ch == w * h * ch) by (nonlinear_arith);
                lemma_idx3_encode(q, h as int, w as int, ch as int);
                let yy = row_of(q, w as int, ch as int);
                let xx = col_of(q, w as int, ch as int);
                let cc = chan_of(q, ch as int);
                let f = clamped_channel(*img, cc);
                assert(dst@[idx3(yy, xx, cc, img.width as int, img.channels as int)] as int
                    == window_sum(*img, kernel_size as int, xx, yy, cc) / (kernel_size
                    * kernel_size) as int);
                assert((kernel_size * kernel_size) as int == 1) by (nonlinear_arith)
                    requires
                        kernel_size == 1,
                ;
                assert(window_sum(*img, kernel_size as int, xx, yy, cc) == rect_sum(f, yy, xx, 1, 1));
                assert(rect_sum(f, yy, xx, 1, 1) == rect_sum(f, yy, xx, 0, 1) + row_sum(
                    f,
                    yy,
                    xx,
                    1,
                ));
                assert(row_sum(f, yy, xx, 1) == row_sum(f, yy, xx, 0) + f(yy, xx));
                assert(f(yy, xx) == img.sample(xx, yy, cc) as int);
                vstd::arithmetic::div_mod::lemma_div_basics(rect_sum(f, yy, xx, 1, 1));
                assert(rect_sum(f, yy, xx, 1, 1) / 1 == rect_sum(f, yy, xx, 1, 1));
                assert(q == idx3(yy, xx, cc, img.width as int, img.channels as int));
                assert(dst@[q] as int == img.data@[q] as int);
            }
            assert(dst@ =~= img.data@);
        }
    }
    dst
}

} // verus!
