use bitvec::vec::BitVec;
use improc::feat::{bitvec_distance, PackedBits};

fn bits_of(values: &[u8]) -> PackedBits {
    let mut bv: BitVec = BitVec::new();
    for &v in values {
        bv.push(v != 0);
    }
    let bools: Vec<bool> = bv.iter().map(|b| *b).collect();
    PackedBits::from_bools(&bools)
}

#[test]
fn test_bitvec_distance() {
    let lhs = bits_of(&[0, 1, 1, 0, 0]);
    let rhs = bits_of(&[0, 1, 0, 0, 1]);
    let dist = bitvec_distance(&lhs, &rhs) as usize;
    assert_eq!(dist, 2);
    let rhs = bits_of(&[1, 0, 0, 1, 1]);
    let dist = bitvec_distance(&lhs, &rhs) as usize;
    assert_eq!(dist, 5);
}

#[test]
fn bitvec_distance_stops_at_the_shorter() {
    let lhs = bits_of(&[1, 1, 1]);
    let rhs = bits_of(&[0, 1, 0, 1, 1, 1]);
    assert_eq!(lhs.len(), 3);
    assert_eq!(bitvec_distance(&lhs, &rhs), 2);
    assert_eq!(bitvec_distance(&rhs, &lhs), 2);
    assert_eq!(bitvec_distance(&bits_of(&[]), &rhs), 0);
}
