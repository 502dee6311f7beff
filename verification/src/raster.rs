//! Index arithmetic of interleaved raster images: sample `c` of pixel
//! `(x, y)` in an image `w` pixels wide with `ch` samples per pixel lies at
//! `(y * w + x) * ch + c`.
use vstd::prelude::*;

verus! {

/// Flat position of sample `c` of pixel `(x, y)`.
pub open spec fn idx3(y: int, x: int, c: int, w: int, ch: int) -> int {
    (y * w + x) * ch + c
}

/// Row of the sample stored at flat position `k`.
pub open spec fn row_of(k: int, w: int, ch: int) -> int {
    (k / ch) / w
}

/// Column of the sample stored at flat position `k`.
pub open spec fn col_of(k: int, w: int, ch: int) -> int {
    (k / ch) % w
}

/// Channel of the sample stored at flat position `k`.
pub open spec fn chan_of(k: int, ch: int) -> int {
    k % ch
}

pub proof fn lemma_idx3_decode(y: int, x: int, c: int, w: int, ch: int)
    requires
        0 <= y,
        0 <= x < w,
        0 <= c < ch,
    ensures
        row_of(idx3(y, x, c, w, ch), w, ch) == y,
        col_of(idx3(y, x, c, w, ch), w, ch) == x,
        chan_of(idx3(y, x, c, w, ch), ch) == c,
{
    vstd::arithmetic::div_mod::lemma_fundamental_div_mod_converse(
        idx3(y, x, c, w, ch),
        ch,
        y * w + x,
        c,
    );
    vstd::arithmetic::div_mod::lemma_fundamental_div_mod_converse(y * w + x, w, y, x);
}

/// Every flat position inside an `h` x `w` raster with `ch` channels is the
/// position of the sample its decoded row, column and channel name.
pub proof fn lemma_idx3_encode(k: int, h: int, w: int, ch: int)
    requires
        0 <= k < h * w * ch,
        w >= 1,
        ch >= 1,
    ensures
        0 <= row_of(k, w, ch) < h,
        0 <= col_of(k, w, ch) < w,
        0 <= chan_of(k, ch) < ch,
        k == idx3(row_of(k, w, ch), col_of(k, w, ch), chan_of(k, ch), w, ch),
{
    let q = k / ch;
    vstd::arithmetic::div_mod::lemma_fundamental_div_mod(k, ch);
    vstd::arithmetic::div_mod::lemma_fundamental_div_mod(q, w);
    assert(0 <= k % ch < ch) by {
        vstd::arithmetic::div_mod::lemma_mod_pos_bound(k, ch);
    }
    assert(0 <= q % w < w) by {
        vstd::arithmetic::div_mod::lemma_mod_pos_bound(q, w);
    }
    assert(0 <= q) by {
        vstd::arithmetic::div_mod::lemma_div_pos_is_pos(k, ch);
    }
    assert(q < h * w) by {
        assert(k < ch * (h * w)) by (nonlinear_arith)
            requires
                k < h * w * ch,
        ;
        vstd::arithmetic::div_mod::lemma_multiply_divide_lt(k, ch, h * w);
    }
    assert(0 <= q / w) by {
        vstd::arithmetic::div_mod::lemma_div_pos_is_pos(q, w);
    }
    assert(q / w < h) by {
        assert(q < w * h) by (nonlinear_arith)
            requires
                q < h * w,
        ;
        vstd::arithmetic::div_mod::lemma_multiply_divide_lt(q, w, h);
    }
    assert(k == (q / w * w + q % w) * ch + k % ch) by (nonlinear_arith)
        requires
            k == ch * q + k % ch,
            q == w * (q / w) + q % w,
    ;
}

/// `a * b + c < n * b` whenever `a < n` and `c < b`.
pub proof fn lemma_lin_bound(a: int, b: int, c: int, n: int)
    requires
        0 <= a < n,
        0 <= c < b,
    ensures
        a * b + c < n * b,
        0 <= a * b + c,
{
    assert(a * b + c < n * b) by (nonlinear_arith)
        requires
            0 <= a < n,
            0 <= c < b,
    ;
    assert(0 <= a * b) by (nonlinear_arith)
        requires
            0 <= a,
            0 <= c < b,
    ;
}

pub proof fn lemma_idx3_bound(y: int, x: int, c: int, h: int, w: int, ch: int)
    requires
        0 <= y < h,
        0 <= x < w,
        0 <= c < ch,
    ensures
        0 <= idx3(y, x, c, w, ch) < h * w * ch,
        0 <= y * w + x < h * w,
{
    lemma_lin_bound(y, w, x, h);
    lemma_lin_bound(y * w + x, ch, c, h * w);
}

/// The sample after `(y, x, c)` in raster order.
pub proof fn lemma_idx3_next(y: int, x: int, c: int, w: int, ch: int)
    ensures
        idx3(y, x, c, w, ch) + 1 == idx3(y, x, c + 1, w, ch),
        idx3(y, x, ch, w, ch) == idx3(y, x + 1, 0, w, ch),
        idx3(y, w, 0, w, ch) == idx3(y + 1, 0, 0, w, ch),
        idx3(y, 0, 0, w, ch) == y * w * ch,
{
    assert(idx3(y, x, ch, w, ch) == idx3(y, x + 1, 0, w, ch)) by (nonlinear_arith);
    assert(idx3(y, w, 0, w, ch) == idx3(y + 1, 0, 0, w, ch)) by (nonlinear_arith);
    assert(idx3(y, 0, 0, w, ch) == y * w * ch) by (nonlinear_arith);
}

/// Neighbouring samples of the same channel.
pub proof fn lemma_idx3_neighbours(y: int, x: int, c: int, w: int, ch: int)
    ensures
        idx3(y, x, c, w, ch) - ch == idx3(y, x - 1, c, w, ch),
        idx3(y, x, c, w, ch) - w * ch == idx3(y - 1, x, c, w, ch),
        idx3(y, x, c, w, ch) + w * ch == idx3(y + 1, x, c, w, ch),
        idx3(y, x, c, w, ch) + ch == idx3(y, x + 1, c, w, ch),
{
    assert(idx3(y, x, c, w, ch) - ch == idx3(y, x - 1, c, w, ch)) by (nonlinear_arith);
    assert(idx3(y, x, c, w, ch) - w * ch == idx3(y - 1, x, c, w, ch)) by (nonlinear_arith);
    assert(idx3(y, x, c, w, ch) + w * ch == idx3(y + 1, x, c, w, ch)) by (nonlinear_arith);
    assert(idx3(y, x, c, w, ch) + ch == idx3(y, x + 1, c, w, ch)) by (nonlinear_arith);
}

pub proof fn lemma_prod3_bounds(a: int, b: int, c: int)
    requires
        a >= 1,
        b >= 1,
        c >= 1,
    ensures
        a <= a * b * c,
        b <= a * b * c,
        a * b <= a * b * c,
        b * a <= a * b * c,
        b * c <= a * b * c,
{
    assert(a <= a * b * c && b <= a * b * c && a * b <= a * b * c && b * a <= a * b * c && b * c
        <= a * b * c)
        by (nonlinear_arith)
        requires
            a >= 1,
            b >= 1,
            c >= 1,
    ;
}

pub proof fn lemma_mul_mono(a: int, b: int, c: int)
    requires
        0 <= a <= b,
        0 <= c,
    ensures
        a * c <= b * c,
{
    assert(a * c <= b * c) by (nonlinear_arith)
        requires
            0 <= a <= b,
            0 <= c,
    ;
}

} // verus!
