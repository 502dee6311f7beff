//! Greedy non-maximum suppression of points on the pixel grid.
use vstd::prelude::*;

use crate::circle::abs_int;

verus! {

/// `b` lies in the square window of side `k` centred on `a`: both
/// coordinate differences are less than `k / 2`.
pub open spec fn within_window(a: (usize, usize), b: (usize, usize), k: int) -> bool {
    2 * abs_int(a.0 - b.0) < k && 2 * abs_int(a.1 - b.1) < k
}

/// Some already kept point covers `p`.
pub open spec fn covered(pts: Seq<(usize, usize)>, kept: Seq<usize>, p: (usize, usize), k: int) -> bool {
    exists|j: int| 0 <= j < kept.len() && within_window(pts[#[trigger] kept[j] as int], p, k)
}

/// Indices kept when the first `n` points are visited in order, each kept
/// unless a point kept before it has it in its window.
pub open spec fn nms_kept(pts: Seq<(usize, usize)>, k: int, n: int) -> Seq<usize>
    decreases n,
{
    if n <= 0 {
        Seq::empty()
    } else {
        let prev = nms_kept(pts, k, n - 1);
        if covered(pts, prev, pts[n - 1], k) {
            prev
        } else {
            prev.push((n - 1) as usize)
        }
    }
}

fn in_window(a: (usize, usize), b: (usize, usize), k: u32) -> (r: bool)
    ensures
        r == within_window(a, b, k as int),
{
    let dx = if a.0 >= b.0 {
        a.0 - b.0
    } else {
        b.0 - a.0
    };
    let dy = if a.1 >= b.1 {
        a.1 - b.1
    } else {
        b.1 - a.1
    };
    let dx = dx as u64;
    let dy = dy as u64;
    let kk = k as u64;
    dx < kk && 2 * dx < kk && dy < kk && 2 * dy < kk
}

/// Greedy non-maximum suppression: visits `points` in order (strongest
/// first) and keeps a point unless it lies within the `kernel_size` window
/// of a point already kept. Returns the indices of the kept points, in
/// visiting order.
pub fn suppress_non_maxima(points: &Vec<(usize, usize)>, kernel_size: u32) -> (kept: Vec<usize>)
    ensures
        kept@ == nms_kept(points@, kernel_size as int, points@.len() as int),
{
    let mut kept: Vec<usize> = Vec::new();
    let n = points.len();
    let mut i: usize = 0;
    while i < n
        invariant
            n == points@.len(),
            i <= n,
            kept@ == nms_kept(points@, kernel_size as int, i as int),
            forall|j: int| 0 <= j < kept@.len() ==> #[trigger] kept@[j] < i,
        decreases n - i,
    {
        let p = points[i];
        let mut suppressed = false;
        let mut j: usize = 0;
        while j < kept.len() && !suppressed
            invariant
                n == points@.len(),
                i < n,
                p == points@[i as int],
                j <= kept@.len(),
                forall|jj: int| 0 <= jj < kept@.len() ==> #[trigger] kept@[jj] < i,
                !suppressed ==> forall|jj: int|
                    0 <= jj < j ==> !within_window(
                        points@[#[trigger] kept@[jj] as int],
                        p,
                        kernel_size as int,
                    ),
                suppressed ==> covered(points@, kept@, p, kernel_size as int),
            decreases kept@.len() - j,
        {
            let q = points[kept[j]];
            if in_window(q, p, kernel_size) {
                suppressed = true;
                assert(within_window(points@[kept@[j as int] as int], p, kernel_size as int));
            }
            j = j + 1;
        }
        proof {
            if !suppressed {
                assert(!covered(points@, kept@, p, kernel_size as int)) by {
                    if covered(points@, kept@, p, kernel_size as int) {
                        let jj = choose|jj: int|
                            0 <= jj < kept@.len() && within_window(
                                points@[#[trigger] kept@[jj] as int],
                                p,
                                kernel_size as int,
                            );
                        assert(!within_window(points@[kept@[jj] as int], p, kernel_size as int));
                    }
                }
            }
        }
        if !suppressed {
            kept.push(i);
        }
        i = i + 1;
    }
    kept
}

/// What greedy suppression guarantees: the kept indices are increasing,
/// the first point is kept, no kept point lies in the window of another,
/// and every dropped point lies in the window of a point kept before it.
pub proof fn lemma_nms_kept_props(pts: Seq<(usize, usize)>, k: int, n: int)
    requires
        0 <= n <= pts.len(),
        pts.len() <= usize::MAX,
    ensures
        forall|a: int, b: int|
            0 <= a < b < nms_kept(pts, k, n).len() ==> nms_kept(pts, k, n)[a] < nms_kept(
                pts,
                k,
                n,
            )[b],
        forall|a: int| 0 <= a < nms_kept(pts, k, n).len() ==> nms_kept(pts, k, n)[a] < n,
        n > 0 ==> nms_kept(pts, k, n).len() > 0 && nms_kept(pts, k, n)[0] == 0,
        forall|a: int, b: int|
            0 <= a < b < nms_kept(pts, k, n).len() ==> !within_window(
                pts[nms_kept(pts, k, n)[a] as int],
                pts[nms_kept(pts, k, n)[b] as int],
                k,
            ),
        forall|i: int|
            #![trigger pts[i]]
            0 <= i < n && !nms_kept(pts, k, n).contains(i as usize) ==> exists|a: int|
                0 <= a < nms_kept(pts, k, n).len() && nms_kept(pts, k, n)[a] < i && within_window(
                    pts[#[trigger] nms_kept(pts, k, n)[a] as int],
                    pts[i],
                    k,
                ),
    decreases n,
{
    if n > 0 {
        lemma_nms_kept_props(pts, k, n - 1);
        let prev = nms_kept(pts, k, n - 1);
        let cur = nms_kept(pts, k, n);
        if covered(pts, prev, pts[n - 1], k) {
            assert(cur == prev);
            let j = choose|j: int|
                0 <= j < prev.len() && within_window(pts[#[trigger] prev[j] as int], pts[n - 1], k);
            assert(within_window(pts[prev[j] as int], pts[n - 1], k));
            if n - 1 == 0 {
                assert(prev.len() == 0);
            }
            assert forall|i: int|
                #![trigger pts[i]]
                0 <= i < n && !cur.contains(i as usize) implies exists|a: int|
                0 <= a < cur.len() && cur[a] < i && within_window(pts[#[trigger] cur[a] as int], pts[i], k) by {
                if i == n - 1 {
                    assert(cur[j] < i && within_window(pts[cur[j] as int], pts[i], k));
                }
            }
        } else {
            assert(cur == prev.push((n - 1) as usize));
            assert forall|a: int, b: int| 0 <= a < b < cur.len() implies !within_window(
                pts[cur[a] as int],
                pts[cur[b] as int],
                k,
            ) by {
                if b == cur.len() - 1 {
                    if within_window(pts[cur[a] as int], pts[cur[b] as int], k) {
                        assert(within_window(pts[prev[a] as int], pts[n - 1], k));
                    }
                }
            }
            assert forall|i: int|
                #![trigger pts[i]]
                0 <= i < n && !cur.contains(i as usize) implies exists|a: int|
                0 <= a < cur.len() && cur[a] < i && within_window(pts[#[trigger] cur[a] as int], pts[i], k) by {
                assert(cur[cur.len() - 1] == (n - 1) as usize);
                if i < n - 1 {
                    if prev.contains(i as usize) {
                        let a = choose|a: int| 0 <= a < prev.len() && prev[a] == i as usize;
                        assert(cur[a] == i as usize);
                    }
                    let a = choose|a: int|
                        0 <= a < prev.len() && prev[a] < i && within_window(
                            pts[prev[a] as int],
                            pts[i],
                            k,
                        );
                    assert(cur[a] == prev[a]);
                }
            }
        }
    }
}

} // verus!
