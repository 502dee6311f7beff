//! Bit-packed binary descriptors (BRIEF) and their Hamming distance.
use vstd::prelude::*;

use crate::filter::{median_filter, window_sum};
use crate::image::Image;
use crate::raster::{col_of, idx3, lemma_idx3_encode, row_of};
use crate::bits::{
    lemma_clear_bit, lemma_ones_below_bound, lemma_set_bit, lemma_xor_bit, lemma_zero_bits,
    ones_below, popcount, word_bit,
};

verus! {

/// Bit `i` of a bit sequence, reading positions past its end as `false`.
pub open spec fn seq_bit(s: Seq<bool>, i: int) -> bool {
    0 <= i < s.len() && s[i]
}

/// Number of positions `i < n` at which `a` and `b` differ (past the end a
/// sequence reads as `false`).
pub open spec fn mismatch_count(a: Seq<bool>, b: Seq<bool>, n: int) -> nat
    decreases n,
{
    if n <= 0 {
        0
    } else {
        mismatch_count(a, b, n - 1) + (if seq_bit(a, n - 1) != seq_bit(b, n - 1) {
            1nat
        } else {
            0nat
        })
    }
}

/// Past the end of both sequences nothing more is counted.
pub proof fn lemma_mismatch_count_stable(a: Seq<bool>, b: Seq<bool>, n: int, m: int)
    requires
        a.len() <= n,
        b.len() <= n,
        n <= m,
    ensures
        mismatch_count(a, b, m) == mismatch_count(a, b, n),
    decreases m - n,
{
    if m > n {
        lemma_mismatch_count_stable(a, b, n, m - 1);
    }
}

/// Hamming distance is symmetric.
pub proof fn lemma_mismatch_count_symmetric(a: Seq<bool>, b: Seq<bool>, n: int)
    ensures
        mismatch_count(a, b, n) == mismatch_count(b, a, n),
    decreases n,
{
    if n > 0 {
        lemma_mismatch_count_symmetric(a, b, n - 1);
    }
}

/// A bit sequence is at distance zero from itself.
pub proof fn lemma_mismatch_count_self(a: Seq<bool>, n: int)
    ensures
        mismatch_count(a, a, n) == 0,
    decreases n,
{
    if n > 0 {
        lemma_mismatch_count_self(a, n - 1);
    }
}

/// Hamming distance satisfies the triangle inequality.
pub proof fn lemma_mismatch_count_triangle(a: Seq<bool>, b: Seq<bool>, c: Seq<bool>, n: int)
    ensures
        mismatch_count(a, c, n) <= mismatch_count(a, b, n) + mismatch_count(b, c, n),
    decreases n,
{
    if n > 0 {
        lemma_mismatch_count_triangle(a, b, c, n - 1);
    }
}

pub proof fn lemma_mismatch_count_bound(a: Seq<bool>, b: Seq<bool>, n: int)
    requires
        n >= 0,
    ensures
        mismatch_count(a, b, n) <= n,
    decreases n,
{
    if n > 0 {
        lemma_mismatch_count_bound(a, b, n - 1);
    }
}

/// A growable sequence of `bool` with a fixed capacity, stored both as a
/// `bool` per position and packed into 64-bit words (bit `i` of the
/// sequence is bit `i % 64` of word `i / 64`).
#[derive(Clone)]
pub struct BriefBitVec {
    bits: Vec<u64>,
    values: Vec<bool>,
    max_index: usize,
}

impl View for BriefBitVec {
    type V = Seq<bool>;

    closed spec fn view(&self) -> Seq<bool> {
        self.values@.take(self.max_index as int)
    }
}

impl BriefBitVec {
    /// Number of bits the vector was created for.
    pub closed spec fn capacity(&self) -> nat {
        self.values@.len()
    }

    /// Number of 64-bit words that hold the packed bits.
    pub closed spec fn word_count(&self) -> nat {
        self.bits@.len()
    }

    pub closed spec fn wf(&self) -> bool {
        &&& self.max_index <= self.values@.len()
        &&& self.values@.len() + 63 <= usize::MAX
        &&& self.bits@.len() == (self.values@.len() + 63) / 64
        &&& forall|w: int, j: u64|
            0 <= w < self.bits@.len() && j < 64 ==> #[trigger] word_bit(self.bits@[w], j)
                == seq_bit(self@, 64 * w + j)
        &&& forall|i: int| self.max_index <= i < self.values@.len() ==> !self.values@[i]
    }

    pub proof fn lemma_wf(&self)
        requires
            self.wf(),
        ensures
            self@.len() <= self.capacity(),
            self.capacity() + 63 <= usize::MAX,
            self.word_count() == (self.capacity() + 63) / 64,
            self.capacity() <= 64 * self.word_count(),
            64 * self.word_count() <= self.capacity() + 63,
    {
    }

    /// An empty vector with room for `n_bits` bits.
    pub fn new(n_bits: usize) -> (r: Self)
        requires
            n_bits + 63 <= usize::MAX,
        ensures
            r.wf(),
            r@ == Seq::<bool>::empty(),
            r.capacity() == n_bits,
    {
        let bits: Vec<u64> = vec![0u64; (n_bits + 63) / 64];
        let values: Vec<bool> = vec![false; n_bits];
        let r = BriefBitVec { bits, values, max_index: 0 };
        assert forall|w: int, j: u64|
            0 <= w < r.bits@.len() && j < 64 implies #[trigger] word_bit(r.bits@[w], j)
            == seq_bit(r@, 64 * w + j) by {
            lemma_zero_bits(j);
        }
        assert(r@ =~= Seq::<bool>::empty());
        r
    }

    /// Appends `val` as the next bit.
    pub fn push(&mut self, val: bool)
        requires
            old(self).wf(),
            old(self)@.len() < old(self).capacity(),
        ensures
            final(self).wf(),
            final(self)@ == old(self)@.push(val),
            final(self).capacity() == old(self).capacity(),
    {
        let ghost old_view = self@;
        let idx = self.max_index / 64;
        let offset = self.max_index % 64;
        let off: u64 = offset as u64;
        proof {
            vstd::arithmetic::div_mod::lemma_fundamental_div_mod(self.max_index as int, 64);
        }
        let word = self.bits[idx];
        if val {
            self.bits[idx] = word | (1u64 << off);
        } else {
            self.bits[idx] = word & !(1u64 << off);
        }
        let m = self.max_index;
        self.values[m] = val;
        self.max_index = m + 1;
        assert(self@ =~= old_view.push(val));
        assert forall|w: int, j: u64|
            0 <= w < self.bits@.len() && j < 64 implies #[trigger] word_bit(self.bits@[w], j)
            == seq_bit(self@, 64 * w + j) by {
            if w == idx as int {
                if val {
                    lemma_set_bit(word, off, j);
                } else {
                    lemma_clear_bit(word, off, j);
                }
                assert(word == old(self).bits@[w]);
                assert(word_bit(old(self).bits@[w], j) == seq_bit(old_view, 64 * w + j));
            } else {
                assert(self.bits@[w] == old(self).bits@[w]);
                assert(word_bit(old(self).bits@[w], j) == seq_bit(old_view, 64 * w + j));
            }
        }
    }

    /// Number of bits pushed so far.
    pub fn len(&self) -> (r: usize)
        requires
            self.wf(),
        ensures
            r == self@.len(),
    {
        self.max_index
    }

    /// Bit at `index`; positions not yet pushed read as `false`.
    pub fn get(&self, index: usize) -> (r: bool)
        requires
            self.wf(),
            index < self.capacity(),
        ensures
            r == seq_bit(self@, index as int),
    {
        self.values[index]
    }

    /// The packed words.
    pub fn bits(&self) -> (r: &Vec<u64>)
        requires
            self.wf(),
        ensures
            r@.len() == self.word_count(),
            forall|w: int, j: u64|
                0 <= w < r@.len() && j < 64 ==> #[trigger] word_bit(r@[w], j) == seq_bit(
                    self@,
                    64 * w + j,
                ),
    {
        &self.bits
    }

    /// Hamming distance: the number of ones in the XOR of the word pairs
    /// that both vectors have.
    pub fn distance(&self, rhs: &Self) -> (r: u64)
        requires
            self.wf(),
            rhs.wf(),
        ensures
            r == mismatch_count(
                self@,
                rhs@,
                (64 * (if self.word_count() <= rhs.word_count() {
                    self.word_count()
                } else {
                    rhs.word_count()
                })) as int,
            ),
            self.capacity() == rhs.capacity() ==> r == mismatch_count(
                self@,
                rhs@,
                self.capacity() as int,
            ),
    {
        proof {
            self.lemma_wf();
            rhs.lemma_wf();
        }
        let n = if self.bits.len() <= rhs.bits.len() {
            self.bits.len()
        } else {
            rhs.bits.len()
        };
        let mut dist: u64 = 0;
        let mut t: usize = 0;
        while t < n
            invariant
                self.wf(),
                rhs.wf(),
                n <= self.bits@.len(),
                n <= rhs.bits@.len(),
                64 * n <= self.capacity() + 63,
                self.capacity() + 63 <= usize::MAX,
                t <= n,
                dist == mismatch_count(self@, rhs@, 64 * t),
            decreases n - t,
        {
            let x = self.bits[t] ^ rhs.bits[t];
            let c = popcount(x);
            proof {
                self.lemma_word_mismatch(rhs, t as int, x, 64);
                lemma_mismatch_count_bound(self@, rhs@, 64 * (t + 1));
            }
            dist = dist + c as u64;
            t = t + 1;
        }
        proof {
            if self.capacity() == rhs.capacity() {
                lemma_mismatch_count_stable(self@, rhs@, self.capacity() as int, 64 * n);
            }
        }
        dist
    }

    proof fn lemma_word_mismatch(&self, rhs: &Self, t: int, x: u64, k: int)
        requires
            self.wf(),
            rhs.wf(),
            0 <= t < self.bits@.len(),
            t < rhs.bits@.len(),
            x == self.bits@[t] ^ rhs.bits@[t],
            0 <= k <= 64,
        ensures
            mismatch_count(self@, rhs@, 64 * t + k) == mismatch_count(self@, rhs@, 64 * t)
                + ones_below(x, k),
        decreases k,
    {
        if k > 0 {
            self.lemma_word_mismatch(rhs, t, x, k - 1);
            let j = (k - 1) as u64;
            lemma_xor_bit(self.bits@[t], rhs.bits@[t], j);
            assert(word_bit(self.bits@[t], j) == seq_bit(self@, 64 * t + j));
            assert(word_bit(rhs.bits@[t], j) == seq_bit(rhs@, 64 * t + j));
        }
    }
}

} // verus!

verus! {

/// Flat position of the sample at offset `d` from `(cx, cy)` in a raster
/// with the given strides.
pub open spec fn offset_index(
    cx: int,
    cy: int,
    stride_x: int,
    stride_y: int,
    d: (usize, usize),
) -> int {
    (cy + d.1) * stride_y + (cx + d.0) * stride_x
}

/// The binary test of one pair: the first sample is darker than the second.
pub open spec fn pair_test(
    data: Seq<u8>,
    cx: int,
    cy: int,
    stride_x: int,
    stride_y: int,
    pair: ((usize, usize), (usize, usize)),
) -> bool {
    data[offset_index(cx, cy, stride_x, stride_y, pair.0)] < data[offset_index(
        cx,
        cy,
        stride_x,
        stride_y,
        pair.1,
    )]
}

pub open spec fn pair_in_bounds(
    len: int,
    cx: int,
    cy: int,
    stride_x: int,
    stride_y: int,
    pair: ((usize, usize), (usize, usize)),
) -> bool {
    &&& cx + pair.0.0 <= usize::MAX
    &&& cy + pair.0.1 <= usize::MAX
    &&& cx + pair.1.0 <= usize::MAX
    &&& cy + pair.1.1 <= usize::MAX
    &&& offset_index(cx, cy, stride_x, stride_y, pair.0) < len
    &&& offset_index(cx, cy, stride_x, stride_y, pair.1) < len
}

/// Binary descriptor of the point `(cx, cy)`: one bit per test pair, set
/// when the sample at the pair's first offset is darker than the sample at
/// its second offset. The vector has room for `n_bits` bits.
pub fn calc_brief(
    n_bits: usize,
    cx: usize,
    cy: usize,
    data: &Vec<u8>,
    stride_x: usize,
    stride_y: usize,
    test_pairs: &Vec<((usize, usize), (usize, usize))>,
) -> (desc: BriefBitVec)
    requires
        n_bits + 63 <= usize::MAX,
        test_pairs@.len() <= n_bits,
        forall|i: int|
            0 <= i < test_pairs@.len() ==> pair_in_bounds(
                data@.len() as int,
                cx as int,
                cy as int,
                stride_x as int,
                stride_y as int,
                #[trigger] test_pairs@[i],
            ),
    ensures
        desc.wf(),
        desc.capacity() == n_bits,
        desc@.len() == test_pairs@.len(),
        forall|i: int|
            0 <= i < test_pairs@.len() ==> #[trigger] desc@[i] == pair_test(
                data@,
                cx as int,
                cy as int,
                stride_x as int,
                stride_y as int,
                test_pairs@[i],
            ),
{
    let mut desc = BriefBitVec::new(n_bits);
    let n = test_pairs.len();
    let len = data.len();
    let mut i: usize = 0;
    while i < n
        invariant
            n == test_pairs@.len(),
            len == data@.len(),
            n <= n_bits,
            i <= n,
            desc.wf(),
            desc.capacity() == n_bits,
            desc@.len() == i,
            forall|j: int|
                0 <= j < test_pairs@.len() ==> pair_in_bounds(
                    data@.len() as int,
                    cx as int,
                    cy as int,
                    stride_x as int,
                    stride_y as int,
                    #[trigger] test_pairs@[j],
                ),
            forall|j: int|
                0 <= j < i ==> #[trigger] desc@[j] == pair_test(
                    data@,
                    cx as int,
                    cy as int,
                    stride_x as int,
                    stride_y as int,
                    test_pairs@[j],
                ),
        decreases n - i,
    {
        let pair = test_pairs[i];
        let (p0, p1) = pair;
        assert(pair_in_bounds(
            data@.len() as int,
            cx as int,
            cy as int,
            stride_x as int,
            stride_y as int,
            test_pairs@[i as int],
        ));
        let x0 = cx + p0.0;
        let y0 = cy + p0.1;
        let x1 = cx + p1.0;
        let y1 = cy + p1.1;
        proof {
            assert(0 <= x0 * stride_x && 0 <= y0 * stride_y && 0 <= x1 * stride_x && 0 <= y1
                * stride_y) by (nonlinear_arith);
        }
        let idx0 = y0 * stride_y + x0 * stride_x;
        let idx1 = y1 * stride_y + x1 * stride_x;
        let bit = data[idx0] < data[idx1];
        desc.push(bit);
        i = i + 1;
    }
    desc
}

/// The point lies at least `half` pixels inside a `width` x `height` image
/// on every side (the right and bottom margins exclude column
/// `width - half` and row `height - half`).
pub open spec fn is_inner(p: (usize, usize), width: int, height: int, half: int) -> bool {
    !(p.0 < half || p.1 < half || p.0 >= width - half || p.1 >= height - half)
}

/// Indices of the first `n` points that are inner points (`is_inner`).
pub open spec fn inner_points(kpts: Seq<(usize, usize)>, width: int, height: int, half: int, n: int) -> Seq<
    usize,
>
    decreases n,
{
    if n <= 0 {
        Seq::empty()
    } else {
        let prev = inner_points(kpts, width, height, half, n - 1);
        let p = kpts[n - 1];
        if is_inner(p, width, height, half) {
            prev.push((n - 1) as usize)
        } else {
            prev
        }
    }
}

/// Which keypoints are described: exactly those at least `half` pixels
/// inside the image, `half <= x < width - half` (columns against the width)
/// and `half <= y < height - half` (rows against the height), each once and
/// in the order given.
pub proof fn lemma_inner_points_exact(
    kpts: Seq<(usize, usize)>,
    width: int,
    height: int,
    half: int,
    n: int,
)
    requires
        0 <= n <= kpts.len(),
        kpts.len() <= usize::MAX,
    ensures
        forall|j: int|
            0 <= j < inner_points(kpts, width, height, half, n).len() ==> {
                let t = #[trigger] inner_points(kpts, width, height, half, n)[j] as int;
                &&& 0 <= t < n
                &&& half <= kpts[t].0 < width - half
                &&& half <= kpts[t].1 < height - half
            },
        forall|j1: int, j2: int|
            0 <= j1 < j2 < inner_points(kpts, width, height, half, n).len() ==> #[trigger] inner_points(
                kpts,
                width,
                height,
                half,
                n,
            )[j1] < #[trigger] inner_points(kpts, width, height, half, n)[j2],
        forall|t: int|
            0 <= t < n && half <= (#[trigger] kpts[t]).0 < width - half && half <= kpts[t].1 < height
                - half ==> exists|j: int|
                0 <= j < inner_points(kpts, width, height, half, n).len() && #[trigger] inner_points(
                    kpts,
                    width,
                    height,
                    half,
                    n,
                )[j] == t,
    decreases n,
{
    if n > 0 {
        lemma_inner_points_exact(kpts, width, height, half, n - 1);
        let prev = inner_points(kpts, width, height, half, n - 1);
        let cur = inner_points(kpts, width, height, half, n);
        if is_inner(kpts[n - 1], width, height, half) {
            assert(cur == prev.push((n - 1) as usize));
            assert forall|j: int| 0 <= j < cur.len() implies {
                let t = #[trigger] cur[j] as int;
                &&& 0 <= t < n
                &&& half <= kpts[t].0 < width - half
                &&& half <= kpts[t].1 < height - half
            } by {
                if j < prev.len() {
                    assert(cur[j] == prev[j]);
                }
            }
            assert forall|j1: int, j2: int| 0 <= j1 < j2 < cur.len() implies #[trigger] cur[j1]
                < #[trigger] cur[j2] by {
                assert(cur[j1] == prev[j1]);
                if j2 < prev.len() {
                    assert(cur[j2] == prev[j2]);
                }
            }
            assert forall|t: int|
                0 <= t < n && half <= (#[trigger] kpts[t]).0 < width - half && half <= kpts[t].1
                    < height - half implies exists|j: int|
                0 <= j < cur.len() && #[trigger] cur[j] == t by {
                if t == n - 1 {
                    assert(cur[prev.len() as int] == t);
                } else {
                    let j = choose|j: int| 0 <= j < prev.len() && #[trigger] prev[j] == t;
                    assert(cur[j] == prev[j]);
                }
            }
        } else {
            assert(cur == prev);
        }
    }
}

} // verus!

verus! {

/// Value of pixel `(x, y)` of a single-channel image after the
/// `k` x `k` box filter of `median_filter`.
pub open spec fn box_mean(img: Image, k: int, x: int, y: int) -> int {
    window_sum(img, k, x, y, 0) / (k * k)
}

/// `box_mean` of the pixel stored at flat position `q` of a single-channel
/// image.
pub open spec fn box_mean_at(img: Image, k: int, q: int) -> int {
    box_mean(img, k, col_of(q, img.width as int, 1), row_of(q, img.width as int, 1))
}

/// With a 1 x 1 smoothing window a descriptor bit compares raw pixels: for a
/// keypoint `(x, y)` and a test pair whose two points `(x + dx, y + dy)` lie
/// inside the image, the bit is set exactly when the first pixel is darker
/// than the second.
pub proof fn lemma_unit_box_bit_compares_pixels(
    img: Image,
    x: int,
    y: int,
    pair: ((usize, usize), (usize, usize)),
)
    requires
        img.wf(),
        img.channels == 1,
        0 <= x,
        0 <= y,
        x + pair.0.0 < img.width,
        y + pair.0.1 < img.height,
        x + pair.1.0 < img.width,
        y + pair.1.1 < img.height,
    ensures
        (box_mean_at(img, 1, offset_index(x, y, 1, img.width as int, pair.0)) < box_mean_at(
            img,
            1,
            offset_index(x, y, 1, img.width as int, pair.1),
        )) == (img.data@[(y + pair.0.1) * img.width + (x + pair.0.0)] < img.data@[(y + pair.1.1)
            * img.width + (x + pair.1.0)]),
{
    lemma_unit_box_is_pixel(img, x + pair.0.0, y + pair.0.1);
    lemma_unit_box_is_pixel(img, x + pair.1.0, y + pair.1.1);
}

proof fn lemma_unit_box_is_pixel(img: Image, x: int, y: int)
    requires
        img.wf(),
        img.channels == 1,
        0 <= x < img.width,
        0 <= y < img.height,
    ensures
        box_mean_at(img, 1, y * img.width + x) == img.data@[y * img.width + x],
{
    let w = img.width as int;
    let h = img.height as int;
    let q = y * w + x;
    assert(0 <= q < h * w * 1) by (nonlinear_arith)
        requires
            0 <= x < w,
            0 <= y < h,
            q == y * w + x,
    ;
    lemma_idx3_encode(q, h, w, 1);
    crate::raster::lemma_idx3_decode(y, x, 0, w, 1);
    assert(idx3(y, x, 0, w, 1) == q);
    assert(col_of(q, w, 1) == x && row_of(q, w, 1) == y);
    let f = crate::filter::clamped_channel(img, 0);
    assert(crate::filter::row_sum(f, y, x, 0) == 0);
    assert(crate::filter::row_sum(f, y, x, 1) == f(y, x));
    assert(crate::filter::rect_sum(f, y, x, 0, 1) == 0);
    assert(crate::filter::rect_sum(f, y, x, 1, 1) == f(y, x));
    assert(window_sum(img, 1, x, y, 0) == f(y, x));
    assert(img.sample(x, y, 0) == img.data@[q]);
    assert(f(y, x) == img.data@[q]);
    assert(box_mean(img, 1, x, y) == window_sum(img, 1, x, y, 0) / 1);
    assert(box_mean_at(img, 1, q) == box_mean(img, 1, x, y));
}

/// BRIEF descriptors of the keypoints `kpts` (pixel positions) of a
/// single-channel image: the image is smoothed with the
/// `median_kernel_size` box filter, keypoints closer than `patch_size / 2`
/// to a border are skipped, and every other keypoint gets one bit per test
/// pair (offsets from the keypoint), comparing the smoothed samples at the
/// flat positions `(y + dy) * width + (x + dx)`. Returns the index of each
/// described keypoint with its descriptor.
pub fn brief_compute(
    img: &Image,
    kpts: &Vec<(usize, usize)>,
    patch_size: u32,
    median_kernel_size: u32,
    test_pairs: &Vec<((usize, usize), (usize, usize))>,
) -> (descs: Vec<(usize, BriefBitVec)>)
    requires
        img.wf(),
        img.channels == 1,
        img.width >= 1,
        img.height >= 1,
        median_kernel_size >= 1,
        (img.height + 2 * (median_kernel_size / 2 + 1)) * (img.width + 2 * (median_kernel_size / 2
            + 1)) <= usize::MAX,
        (img.height + 2 * (median_kernel_size / 2 + 1)) * (img.width + 2 * (median_kernel_size / 2
            + 1)) * 510 <= u64::MAX,
        patch_size / 2 <= img.width,
        patch_size / 2 <= img.height,
        test_pairs@.len() + 63 <= usize::MAX,
        forall|t: int, i: int|
            #![trigger kpts@[t], test_pairs@[i]]
            0 <= t < kpts@.len() && 0 <= i < test_pairs@.len() && is_inner(
                kpts@[t],
                img.width as int,
                img.height as int,
                (patch_size / 2) as int,
            ) ==> pair_in_bounds(
                img.width * img.height,
                kpts@[t].0 as int,
                kpts@[t].1 as int,
                1,
                img.width as int,
                test_pairs@[i],
            ),
    ensures
        descs@.len() == inner_points(
            kpts@,
            img.width as int,
            img.height as int,
            (patch_size / 2) as int,
            kpts@.len() as int,
        ).len(),
        forall|j: int|
            0 <= j < descs@.len() ==> {
                let idx = inner_points(
                    kpts@,
                    img.width as int,
                    img.height as int,
                    (patch_size / 2) as int,
                    kpts@.len() as int,
                )[j];
                let kp = kpts@[idx as int];
                &&& (#[trigger] descs@[j]).0 == idx
                &&& descs@[j].1.wf()
                &&& descs@[j].1.capacity() == test_pairs@.len()
                &&& descs@[j].1@.len() == test_pairs@.len()
                &&& forall|i: int|
                    0 <= i < test_pairs@.len() ==> #[trigger] descs@[j].1@[i] == (box_mean_at(
                        *img,
                        median_kernel_size as int,
                        offset_index(kp.0 as int, kp.1 as int, 1, img.width as int, test_pairs@[i].0),
                    ) < box_mean_at(
                        *img,
                        median_kernel_size as int,
                        offset_index(kp.0 as int, kp.1 as int, 1, img.width as int, test_pairs@[i].1),
                    ))
            },
{
    let ghost im = *img;
    proof {
        assert((img.height + 2 * (median_kernel_size / 2 + 1)) * (img.width + 2 * (
        median_kernel_size / 2 + 1)) * img.channels == (img.height + 2 * (median_kernel_size / 2
            + 1)) * (img.width + 2 * (median_kernel_size / 2 + 1))) by (nonlinear_arith)
            requires
                img.channels == 1,
        ;
    }
    let filtered = median_filter(img, median_kernel_size);
    let w = img.width;
    let h = img.height;
    let half = (patch_size / 2) as usize;
    let n_pairs = test_pairs.len();
    let ghost k = median_kernel_size as int;
    proof {
        assert(w * h * 1 == w * h) by (nonlinear_arith);
        assert(h * w * 1 == w * h) by (nonlinear_arith);
    }
    let mut descs: Vec<(usize, BriefBitVec)> = Vec::new();
    let n = kpts.len();
    let mut t: usize = 0;
    while t < n
        invariant
            im == *img,
            img.wf(),
            img.channels == 1,
            w == img.width,
            h == img.height,
            w >= 1,
            h * w * 1 == w * h,
            half == patch_size / 2,
            half <= w,
            half <= h,
            n == kpts@.len(),
            n_pairs == test_pairs@.len(),
            n_pairs + 63 <= usize::MAX,
            k == median_kernel_size,
            filtered@.len() == w * h,
            forall|y: int, x: int, c: int|
                0 <= y < h && 0 <= x < w && 0 <= c < 1 ==> #[trigger] filtered@[idx3(
                    y,
                    x,
                    c,
                    w as int,
                    1,
                )] as int == window_sum(im, k, x, y, c) / (k * k),
            forall|tt: int, i: int|
                #![trigger kpts@[tt], test_pairs@[i]]
                0 <= tt < kpts@.len() && 0 <= i < test_pairs@.len() && is_inner(
                    kpts@[tt],
                    w as int,
                    h as int,
                    half as int,
                ) ==> pair_in_bounds(
                    w * h,
                    kpts@[tt].0 as int,
                    kpts@[tt].1 as int,
                    1,
                    w as int,
                    test_pairs@[i],
                ),
            t <= n,
            descs@.len() == inner_points(kpts@, w as int, h as int, half as int, t as int).len(),
            forall|j: int|
                0 <= j < descs@.len() ==> {
                    let idx = inner_points(kpts@, w as int, h as int, half as int, t as int)[j];
                    let kp = kpts@[idx as int];
                    &&& (#[trigger] descs@[j]).0 == idx
                    &&& idx < t
                    &&& descs@[j].1.wf()
                    &&& descs@[j].1.capacity() == test_pairs@.len()
                    &&& descs@[j].1@.len() == test_pairs@.len()
                    &&& forall|i: int|
                        0 <= i < test_pairs@.len() ==> #[trigger] descs@[j].1@[i] == (box_mean_at(
                            im,
                            k,
                            offset_index(kp.0 as int, kp.1 as int, 1, w as int, test_pairs@[i].0),
                        ) < box_mean_at(
                            im,
                            k,
                            offset_index(kp.0 as int, kp.1 as int, 1, w as int, test_pairs@[i].1),
                        ))
                },
        decreases n - t,
    {
        let (cx, cy) = kpts[t];
        let ghost prev = inner_points(kpts@, w as int, h as int, half as int, t as int);
        if cx < half || cy < half || cx >= w - half || cy >= h - half {
            assert(inner_points(kpts@, w as int, h as int, half as int, t + 1) == prev);
        } else {
            assert(is_inner(kpts@[t as int], w as int, h as int, half as int));
            assert forall|i: int| 0 <= i < test_pairs@.len() implies pair_in_bounds(
                filtered@.len() as int,
                cx as int,
                cy as int,
                1,
                w as int,
                #[trigger] test_pairs@[i],
            ) by {
                assert(pair_in_bounds(
                    w * h,
                    kpts@[t as int].0 as int,
                    kpts@[t as int].1 as int,
                    1,
                    w as int,
                    test_pairs@[i],
                ));
            }
            let d = calc_brief(n_pairs, cx, cy, &filtered, 1, w, test_pairs);
            let ghost old_descs = descs@;
            descs.push((t, d));
            let ghost cur = inner_points(kpts@, w as int, h as int, half as int, t + 1);
            assert(cur == prev.push(t));
            assert forall|j: int| 0 <= j < descs@.len() implies {
                let idx = cur[j];
                let kp = kpts@[idx as int];
                &&& (#[trigger] descs@[j]).0 == idx
                &&& idx < t + 1
                &&& descs@[j].1.wf()
                &&& descs@[j].1.capacity() == test_pairs@.len()
                &&& descs@[j].1@.len() == test_pairs@.len()
                &&& forall|i: int|
                    0 <= i < test_pairs@.len() ==> #[trigger] descs@[j].1@[i] == (box_mean_at(
                        im,
                        k,
                        offset_index(kp.0 as int, kp.1 as int, 1, w as int, test_pairs@[i].0),
                    ) < box_mean_at(
                        im,
                        k,
                        offset_index(kp.0 as int, kp.1 as int, 1, w as int, test_pairs@[i].1),
                    ))
            } by {
                if j == descs@.len() - 1 {
                    assert(cur[j] == t);
                    assert forall|i: int| 0 <= i < test_pairs@.len() implies #[trigger] descs@[j].1@[i]
                        == (box_mean_at(
                        im,
                        k,
                        offset_index(cx as int, cy as int, 1, w as int, test_pairs@[i].0),
                    ) < box_mean_at(
                        im,
                        k,
                        offset_index(cx as int, cy as int, 1, w as int, test_pairs@[i].1),
                    )) by {
                        let p = test_pairs@[i];
                        let q0 = offset_index(cx as int, cy as int, 1, w as int, p.0);
                        let q1 = offset_index(cx as int, cy as int, 1, w as int, p.1);
                        lemma_idx3_encode(q0, h as int, w as int, 1);
                        lemma_idx3_encode(q1, h as int, w as int, 1);
                        assert(filtered@[idx3(row_of(q0, w as int, 1), col_of(q0, w as int, 1), 0, w as int, 1)] as int
                            == box_mean_at(im, k, q0));
                        assert(filtered@[idx3(row_of(q1, w as int, 1), col_of(q1, w as int, 1), 0, w as int, 1)] as int
                            == box_mean_at(im, k, q1));
                    }
                } else {
                    assert(descs@[j] == old_descs[j]);
                    assert(cur[j] == prev[j]);
                }
            }
        }
        t = t + 1;
    }
    descs
}

} // verus!
