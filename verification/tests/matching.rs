use improc::feat::{bitvec_distance, PackedBits};
use improc::matching::unique_matches;

fn bits(values: &[bool]) -> PackedBits {
    PackedBits::from_bools(&values.to_vec())
}

// (x, y, descriptor)
fn prepare_descs() -> (Vec<(usize, usize, PackedBits)>, Vec<(usize, usize, PackedBits)>) {
    let n_dim = 5;
    let lhs_descs: Vec<(usize, usize, PackedBits)> = (0..=n_dim)
        .map(|i| {
            let mut value = vec![false; i];
            (0..n_dim - i).for_each(|_| value.push(true));
            (i, i, bits(&value))
        })
        .collect();
    let rhs_descs = vec![
        (0, 0, bits(&[false; 5])),
        (1, 1, bits(&[true, true, false, true, true])),
        (2, 2, bits(&[true, false, false, true, true])),
        (3, 3, bits(&[true; 5])),
    ];
    (lhs_descs, rhs_descs)
}

#[test]
fn test_brute_force_matcher() {
    let (lhs_descs, rhs_descs) = prepare_descs();
    assert_eq!(lhs_descs.len(), 6);
    assert_eq!(rhs_descs.len(), 4);
    assert_eq!(bitvec_distance(&lhs_descs[0].2, &bits(&[true; 5])), 0);
    let mut dists: Vec<(f32, usize, usize)> = Vec::new();
    for li in 0..lhs_descs.len() {
        for ri in 0..rhs_descs.len() {
            let dist = bitvec_distance(&lhs_descs[li].2, &rhs_descs[ri].2) as f32;
            dists.push((dist, li, ri));
        }
    }
    dists.sort_by(|l, r| l.0.partial_cmp(&r.0).unwrap());
    let pairs: Vec<(usize, usize)> = dists.iter().map(|d| (d.1, d.2)).collect();
    let accepted = unique_matches(&pairs, lhs_descs.len(), rhs_descs.len());
    let matches: Vec<(usize, usize)> = accepted.iter().map(|&k| pairs[k]).collect();
    assert_eq!(matches.len(), 3);
    assert_eq!(lhs_descs[matches[0].0].0, 0);
    assert_eq!(lhs_descs[matches[0].0].1, 0);
    assert_eq!(rhs_descs[matches[0].1].0, 3);
    assert_eq!(rhs_descs[matches[0].1].1, 3);
    assert_eq!(lhs_descs[matches[1].0].0, 5);
    assert_eq!(lhs_descs[matches[1].0].1, 5);
    assert_eq!(rhs_descs[matches[1].1].0, 0);
    assert_eq!(rhs_descs[matches[1].1].1, 0);
    assert_eq!(lhs_descs[matches[2].0].0, 3);
    assert_eq!(lhs_descs[matches[2].0].1, 3);
    assert_eq!(rhs_descs[matches[2].1].0, 2);
    assert_eq!(rhs_descs[matches[2].1].1, 2);
}

#[test]
fn rejected_pairs_still_use_their_indices() {
    // (0, 1) accepted; (0, 2) rejected but uses right index 2; (3, 2) is
    // then rejected and uses left index 3, so (3, 4) is rejected as well
    let pairs = vec![(0, 1), (0, 2), (3, 2), (3, 4)];
    assert_eq!(unique_matches(&pairs, 5, 5), vec![0]);
    let pairs = vec![(0, 1), (0, 2), (3, 3), (4, 2)];
    assert_eq!(unique_matches(&pairs, 5, 5), vec![0, 2]);
    assert!(unique_matches(&vec![], 0, 0).is_empty());
}
