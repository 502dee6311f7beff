//! Greedy one-to-one matching of candidate pairs visited in order.
use vstd::prelude::*;

verus! {

/// Pair `k` shares neither its left nor its right index with any pair
/// before it.
pub open spec fn first_use(pairs: Seq<(usize, usize)>, k: int) -> bool {
    forall|j: int| 0 <= j < k ==> (#[trigger] pairs[j]).0 != pairs[k].0 && pairs[j].1 != pairs[k].1
}

/// Indices of the pairs among the first `n` that are accepted: a pair is
/// accepted when neither of its indices occurred in an earlier pair
/// (accepted or not).
pub open spec fn accepted_pairs(pairs: Seq<(usize, usize)>, n: int) -> Seq<usize>
    decreases n,
{
    if n <= 0 {
        Seq::empty()
    } else if first_use(pairs, n - 1) {
        accepted_pairs(pairs, n - 1).push((n - 1) as usize)
    } else {
        accepted_pairs(pairs, n - 1)
    }
}

/// Visits candidate pairs `(lhs index, rhs index)` in order (best first)
/// and accepts a pair when neither of its indices has been seen in an
/// earlier pair; every visited pair marks both of its indices as seen.
/// Returns the positions of the accepted pairs.
pub fn unique_matches(pairs: &Vec<(usize, usize)>, n_lhs: usize, n_rhs: usize) -> (accepted: Vec<
    usize,
>)
    requires
        forall|k: int|
            0 <= k < pairs@.len() ==> (#[trigger] pairs@[k]).0 < n_lhs && pairs@[k].1 < n_rhs,
    ensures
        accepted@ == accepted_pairs(pairs@, pairs@.len() as int),
{
    let mut lflag: Vec<bool> = vec![true; n_lhs];
    let mut rflag: Vec<bool> = vec![true; n_rhs];
    let mut accepted: Vec<usize> = Vec::new();
    let n = pairs.len();
    let mut k: usize = 0;
    while k < n
        invariant
            n == pairs@.len(),
            k <= n,
            lflag@.len() == n_lhs,
            rflag@.len() == n_rhs,
            forall|q: int|
                0 <= q < pairs@.len() ==> (#[trigger] pairs@[q]).0 < n_lhs && pairs@[q].1 < n_rhs,
            forall|l: int|
                0 <= l < n_lhs ==> (#[trigger] lflag@[l] <==> forall|j: int|
                    0 <= j < k ==> (#[trigger] pairs@[j]).0 != l),
            forall|r: int|
                0 <= r < n_rhs ==> (#[trigger] rflag@[r] <==> forall|j: int|
                    0 <= j < k ==> (#[trigger] pairs@[j]).1 != r),
            accepted@ == accepted_pairs(pairs@, k as int),
        decreases n - k,
    {
        let (l, r) = pairs[k];
        assert(lflag@[l as int] && rflag@[r as int] <==> first_use(pairs@, k as int));
        if lflag[l] && rflag[r] {
            accepted.push(k);
        }
        lflag.set(l, false);
        rflag.set(r, false);
        proof {
            assert forall|ll: int| 0 <= ll < n_lhs implies (#[trigger] lflag@[ll] <==> forall|j: int|
                0 <= j < k + 1 ==> (#[trigger] pairs@[j]).0 != ll) by {
                if ll != l {
                    if !lflag@[ll] {
                        let j = choose|j: int| 0 <= j < k && (#[trigger] pairs@[j]).0 == ll;
                    }
                }
            }
            assert forall|rr: int| 0 <= rr < n_rhs implies (#[trigger] rflag@[rr] <==> forall|j: int|
                0 <= j < k + 1 ==> (#[trigger] pairs@[j]).1 != rr) by {
                if rr != r {
                    if !rflag@[rr] {
                        let j = choose|j: int| 0 <= j < k && (#[trigger] pairs@[j]).1 == rr;
                    }
                }
            }
        }
        k = k + 1;
    }
    accepted
}

/// The accepted pairs form a one-to-one matching: no left or right index
/// is used by two accepted pairs.
pub proof fn lemma_accepted_pairs_disjoint(pairs: Seq<(usize, usize)>, n: int)
    requires
        0 <= n <= pairs.len(),
        pairs.len() <= usize::MAX,
    ensures
        forall|a: int, b: int|
            0 <= a < b < accepted_pairs(pairs, n).len() ==> {
                let pa = pairs[#[trigger] accepted_pairs(pairs, n)[a] as int];
                let pb = pairs[#[trigger] accepted_pairs(pairs, n)[b] as int];
                pa.0 != pb.0 && pa.1 != pb.1
            },
        forall|a: int|
            0 <= a < accepted_pairs(pairs, n).len() ==> #[trigger] accepted_pairs(pairs, n)[a] < n,
        forall|a: int, b: int|
            0 <= a < b < accepted_pairs(pairs, n).len() ==> #[trigger] accepted_pairs(pairs, n)[a]
                < #[trigger] accepted_pairs(pairs, n)[b],
    decreases n,
{
    if n > 0 {
        lemma_accepted_pairs_disjoint(pairs, n - 1);
        let prev = accepted_pairs(pairs, n - 1);
        let cur = accepted_pairs(pairs, n);
        if first_use(pairs, n - 1) {
            assert(cur == prev.push((n - 1) as usize));
            assert forall|a: int, b: int| 0 <= a < b < cur.len() implies {
                let pa = pairs[#[trigger] cur[a] as int];
                let pb = pairs[#[trigger] cur[b] as int];
                pa.0 != pb.0 && pa.1 != pb.1
            } by {
                if b == cur.len() - 1 {
                    assert(cur[a] == prev[a]);
                    let j = prev[a] as int;
                    assert(pairs[j].0 != pairs[n - 1].0);
                } else {
                    assert(cur[a] == prev[a] && cur[b] == prev[b]);
                }
            }
        }
    }
}

} // verus!
