//! Interleaved 8-bit raster images and edge-replicating padding.
use vstd::prelude::*;

use crate::raster::{
    chan_of, col_of, idx3, lemma_idx3_bound, lemma_idx3_decode, lemma_idx3_next, lemma_mul_mono,
    lemma_idx3_encode, lemma_prod3_bounds,
    row_of,
};

verus! {

/// An image of `width` x `height` pixels with `channels` 8-bit samples per
/// pixel, stored row by row with the samples of a pixel next to each other.
pub struct Image {
    pub width: usize,
    pub height: usize,
    pub channels: usize,
    pub data: Vec<u8>,
}

/// `v` moved into `0..n` by replacing it with the nearest end.
pub open spec fn clamp_coord(v: int, n: int) -> int {
    if v < 0 {
        0
    } else if v >= n {
        n - 1
    } else {
        v
    }
}

impl Image {
    pub open spec fn wf(&self) -> bool {
        self.data@.len() == self.width * self.height * self.channels
    }

    /// Sample `c` of pixel `(x, y)`.
    pub open spec fn sample(&self, x: int, y: int, c: int) -> u8 {
        self.data@[idx3(y, x, c, self.width as int, self.channels as int)]
    }

    /// Sample `c` at `(px, py)` of the image surrounded by a border of `pad`
    /// pixels that repeats the nearest edge pixel.
    pub open spec fn padded_sample(&self, pad: int, px: int, py: int, c: int) -> u8 {
        self.sample(
            clamp_coord(px - pad, self.width as int),
            clamp_coord(py - pad, self.height as int),
            c,
        )
    }

    /// Wraps raw samples; `None` when their number is not
    /// `width * height * channels`.
    pub fn new(width: usize, height: usize, channels: usize, data: Vec<u8>) -> (r: Option<Image>)
        ensures
            r is Some <==> data@.len() == width * height * channels,
            r matches Some(img) ==> img.wf() && img.width == width && img.height == height
                && img.channels == channels && img.data@ == data@,
    {
        let len = data.len();
        if channels == 0 {
            assert(width * height * channels == 0) by (nonlinear_arith)
                requires
                    channels == 0,
            ;
            if data.len() == 0 {
                return Some(Image { width, height, channels, data });
            } else {
                return None;
            }
        }
        assert(width * height <= width * height * channels) by (nonlinear_arith)
            requires
                channels >= 1,
        ;
        match width.checked_mul(height) {
            Some(wh) => match wh.checked_mul(channels) {
                Some(n) => {
                    if n == data.len() {
                        Some(Image { width, height, channels, data })
                    } else {
                        None
                    }
                },
                None => None,
            },
            None => None,
        }
    }

    /// The raw samples.
    pub fn as_raw(&self) -> (r: &Vec<u8>)
        ensures
            r@ == self.data@,
    {
        &self.data
    }
}

/// The padded sample stored at flat position `k` of a padded raster that
/// is `wp` pixels wide.
spec fn padded_at(img: &Image, pad: int, wp: int, k: int) -> u8 {
    img.padded_sample(
        pad,
        col_of(k, wp, img.channels as int),
        row_of(k, wp, img.channels as int),
        chan_of(k, img.channels as int),
    )
}

/// Samples of `img` surrounded by a border of `pad` pixels on every side,
/// each border pixel repeating the nearest pixel of the image; the result is
/// `width + 2 * pad` pixels wide.
pub fn padding(img: &Image, pad: usize) -> (r: Vec<u8>)
    requires
        img.wf(),
        img.channels == 0 || (img.width >= 1 && img.height >= 1),
        (img.height + 2 * pad) * (img.width + 2 * pad) * img.channels <= usize::MAX,
    ensures
        r@.len() == (img.height + 2 * pad) * (img.width + 2 * pad) * img.channels,
        forall|py: int, px: int, c: int|
            0 <= py < img.height + 2 * pad && 0 <= px < img.width + 2 * pad && 0 <= c
                < img.channels ==> #[trigger] r@[idx3(
                py,
                px,
                c,
                img.width + 2 * pad,
                img.channels as int,
            )] == img.padded_sample(pad as int, px, py, c),
        pad == 0 ==> r@ == img.data@,
{
    let mut res: Vec<u8> = Vec::new();
    let ch = img.channels;
    if ch == 0 {
        assert((img.height + 2 * pad) * (img.width + 2 * pad) * img.channels == 0)
            by (nonlinear_arith)
            requires
                img.channels == 0,
        ;
        assert(img.width * img.height * img.channels == 0) by (nonlinear_arith)
            requires
                img.channels == 0,
        ;
        assert(res@ =~= img.data@);
        return res;
    }
    let w = img.width;
    let h = img.height;
    let ghost total = (h + 2 * pad) * (w + 2 * pad) * ch;
    proof {
        lemma_prod3_bounds((h + 2 * pad) as int, (w + 2 * pad) as int, ch as int);
        lemma_prod3_bounds(w as int, h as int, ch as int);
    }
    let n_samples = img.data.len();
    assert(idx3(0, 0, 0, (w + 2 * pad) as int, ch as int) == 0) by (nonlinear_arith);
    let hp = h + 2 * pad;
    let wp = w + 2 * pad;
    let mut py: usize = 0;
    while py < hp
        invariant
            img.wf(),
            w == img.width,
            h == img.height,
            ch == img.channels,
            ch >= 1,
            w >= 1,
            h >= 1,
            hp == h + 2 * pad,
            wp == w + 2 * pad,
            total == hp * wp * ch,
            total <= usize::MAX,
            w * h <= w * h * ch,
            h * w <= w * h * ch,
            img.data@.len() <= usize::MAX,
            py <= hp,
            res@.len() == idx3(py as int, 0, 0, wp as int, ch as int),
            forall|k: int| 0 <= k < res@.len() ==> #[trigger] res@[k] == padded_at(img, pad as int, wp as int, k),
        decreases hp - py,
    {
        let sy: usize = if py < pad {
            0
        } else if py - pad >= h {
            h - 1
        } else {
            py - pad
        };
        let mut px: usize = 0;
        while px < wp
            invariant
                img.wf(),
                w == img.width,
                h == img.height,
                ch == img.channels,
                ch >= 1,
                w >= 1,
                h >= 1,
                hp == h + 2 * pad,
                wp == w + 2 * pad,
                total == hp * wp * ch,
                total <= usize::MAX,
                w * h <= w * h * ch,
                h * w <= w * h * ch,
                img.data@.len() <= usize::MAX,
                py < hp,
                sy < h,
                sy == crate::image::clamp_coord(py - pad, h as int),
                px <= wp,
                res@.len() == idx3(py as int, px as int, 0, wp as int, ch as int),
                forall|k: int| 0 <= k < res@.len() ==> #[trigger] res@[k] == padded_at(img, pad as int, wp as int, k),
            decreases wp - px,
        {
            let sx: usize = if px < pad {
                0
            } else if px - pad >= w {
                w - 1
            } else {
                px - pad
            };
            proof {
                lemma_idx3_bound(sy as int, sx as int, (ch - 1) as int, h as int, w as int, ch as int);
                assert(h * w == w * h) by (nonlinear_arith);
                assert(h * w * ch == w * h * ch) by (nonlinear_arith);
            }
            let base = (sy * w + sx) * ch;
            let mut c: usize = 0;
            while c < ch
                invariant
                    img.wf(),
                    w == img.width,
                    h == img.height,
                    ch == img.channels,
                    ch >= 1,
                    hp == h + 2 * pad,
                    wp == w + 2 * pad,
                    total == hp * wp * ch,
                    total <= usize::MAX,
                    py < hp,
                    px < wp,
                    sy < h,
                    sx < w,
                    sy == crate::image::clamp_coord(py - pad, h as int),
                    sx == crate::image::clamp_coord(px - pad, w as int),
                    base == idx3(sy as int, sx as int, 0, w as int, ch as int),
                    base + ch <= img.data@.len(),
                    img.data@.len() <= usize::MAX,
                    c <= ch,
                    res@.len() == idx3(py as int, px as int, c as int, wp as int, ch as int),
                    forall|k: int| 0 <= k < res@.len() ==> #[trigger] res@[k] == padded_at(img, pad as int, wp as int, k),
                decreases ch - c,
            {
                proof {
                    lemma_idx3_decode(py as int, px as int, c as int, wp as int, ch as int);
                    lemma_idx3_next(py as int, px as int, c as int, wp as int, ch as int);
                    lemma_idx3_bound(py as int, px as int, c as int, hp as int, wp as int, ch as int);
                }
                let v = img.data[base + c];
                assert(base + c == idx3(sy as int, sx as int, c as int, w as int, ch as int));
                assert(v == img.sample(sx as int, sy as int, c as int));
                let ghost k = res@.len() as int;
                assert(k == idx3(py as int, px as int, c as int, wp as int, ch as int));
                assert(row_of(k, wp as int, ch as int) == py);
                assert(col_of(k, wp as int, ch as int) == px);
                assert(chan_of(k, ch as int) == c);
                assert(padded_at(img, pad as int, wp as int, k) == img.padded_sample(pad as int, px as int, py as int, c as int));
                res.push(v);
                assert(res@[k] == padded_at(img, pad as int, wp as int, k));
                c = c + 1;
            }
            proof {
                lemma_idx3_next(py as int, px as int, c as int, wp as int, ch as int);
            }
            px = px + 1;
        }
        proof {
            lemma_idx3_next(py as int, px as int, 0, wp as int, ch as int);
        }
        py = py + 1;
    }
    proof {
        lemma_idx3_next(py as int, 0, 0, wp as int, ch as int);
    }
    assert forall|qy: int, qx: int, c: int|
        0 <= qy < img.height + 2 * pad && 0 <= qx < img.width + 2 * pad && 0 <= c
            < img.channels implies #[trigger] res@[idx3(
        qy,
        qx,
        c,
        img.width + 2 * pad,
        img.channels as int,
    )] == img.padded_sample(pad as int, qx, qy, c) by {
        lemma_idx3_bound(qy, qx, c, hp as int, wp as int, ch as int);
        lemma_idx3_decode(qy, qx, c, wp as int, ch as int);
    }
    proof {
        if pad == 0 {
            assert(h * w * ch == w * h * ch) by (nonlinear_arith);
            assert forall|k: int| 0 <= k < res@.len() implies res@[k] == img.data@[k] by {
                lemma_idx3_encode(k, h as int, w as int, ch as int);
                let yy = row_of(k, w as int, ch as int);
                let xx = col_of(k, w as int, ch as int);
                let cc = chan_of(k, ch as int);
                assert(res@[idx3(yy, xx, cc, w as int, ch as int)] == img.padded_sample(
                    0,
                    xx,
                    yy,
                    cc,
                ));
            }
            assert(res@ =~= img.data@);
        }
    }
    res
}

} // verus!
