use improc::descriptors::{brief_compute, calc_brief, BriefBitVec};
use improc::image::Image;

#[test]
fn test_brief_bit_vec() {
    let n_bits = 256;
    let mut bvec = BriefBitVec::new(n_bits);
    for i in 0..n_bits {
        assert_eq!(bvec.get(i), false);
    }

    for i in 0..n_bits {
        if i % 3 == 0 {
            bvec.push(true);
            assert_eq!(bvec.get(i) as usize, 1);
        } else {
            bvec.push(false);
            assert_eq!(bvec.get(i) as usize, 0);
        }
    }
    assert_eq!(bvec.len(), n_bits);
    assert_eq!(bvec.get(0) as usize, 1);
    assert_eq!(bvec.get(1) as usize, 0);
    assert_eq!(bvec.get(2) as usize, 0);
}

#[test]
fn test_brief_bit_vec_distance() {
    let n_bits = 256;
    let mut lhs = BriefBitVec::new(n_bits);
    let mut rhs = BriefBitVec::new(n_bits);
    assert_eq!(lhs.distance(&rhs) as usize, 0);

    (0..n_bits).for_each(|i| lhs.push(i % 3 == 0));
    println!("lhs = {:?}", lhs.bits());
    assert_eq!(lhs.get(0) as usize, 1);
    assert_eq!(rhs.distance(&lhs) as usize, 86);

    (0..n_bits).for_each(|i| rhs.push(i % 2 == 0));
    assert_eq!(lhs.distance(&rhs) as usize, 128);
}

#[test]
fn brief_bits_are_packed_least_significant_first() {
    let mut bvec = BriefBitVec::new(70);
    for i in 0..70 {
        bvec.push(i == 0 || i == 3 || i == 64 || i == 69);
    }
    let words = bvec.bits();
    assert_eq!(words.len(), 2);
    assert_eq!(words[0], 0b1001);
    assert_eq!(words[1], 0b100001);
}

#[test]
fn brief_distance_counts_only_shared_words() {
    let mut short = BriefBitVec::new(64);
    let mut long = BriefBitVec::new(128);
    for _ in 0..64 {
        short.push(true);
    }
    for _ in 0..128 {
        long.push(false);
    }
    assert_eq!(short.distance(&long), 64);
    assert_eq!(long.distance(&short), 64);
}

#[test]
fn brief_unpushed_bits_read_false() {
    let mut bvec = BriefBitVec::new(10);
    bvec.push(true);
    assert!(bvec.get(0));
    for i in 1..10 {
        assert!(!bvec.get(i));
    }
    assert_eq!(bvec.len(), 1);
}

#[test]
fn test_calc_brief() {
    let n_pairs = 256;
    let data: Vec<u8> = vec![1, 2, 3, 0, 5, 6];
    let x_stride = 1;
    let y_stride = 3;
    let test_pairs: Vec<((usize, usize), (usize, usize))> =
        vec![((0, 0), (1, 0)), ((0, 0), (0, 1))];
    let desc = calc_brief(n_pairs, 0, 0, &data, x_stride, y_stride, &test_pairs);
    assert_eq!(desc.get(0) as usize, 1);
    assert_eq!(desc.get(1) as usize, 0);
}

fn ramp_image(length: usize) -> Image {
    let mut data = Vec::new();
    for y in 0..length {
        for x in 0..length {
            data.push((x + y) as u8);
        }
    }
    Image::new(length, length, 1, data).unwrap()
}

#[test]
fn test_compute() {
    let patch_size = 3;
    let img = ramp_image(5);
    let kpts = vec![(2usize, 2usize), (0usize, 0usize)];
    let test_pairs: Vec<((usize, usize), (usize, usize))> = vec![((0, 0), (2, 2))];
    let descs = brief_compute(&img, &kpts, patch_size, 3, &test_pairs);
    assert_eq!(descs.len(), 1);
    assert_eq!(kpts[descs[0].0].0, 2);
    assert_eq!(kpts[descs[0].0].1, 2);
    assert_eq!(descs[0].1.len(), 1);
    assert_eq!(descs[0].1.get(0) as usize, 1);
}

#[test]
fn brief_compute_skips_border_keypoints() {
    let img = ramp_image(8);
    let kpts = vec![(0usize, 4usize), (4, 4), (6, 4), (5, 5), (4, 7)];
    let test_pairs: Vec<((usize, usize), (usize, usize))> = vec![((0, 0), (1, 1)), ((1, 1), (0, 0))];
    let descs = brief_compute(&img, &kpts, 5, 1, &test_pairs);
    let kept: Vec<usize> = descs.iter().map(|d| d.0).collect();
    assert_eq!(kept, vec![1, 3]);
    for d in &descs {
        assert_eq!(d.1.len(), 2);
        assert!(d.1.get(0));
        assert!(!d.1.get(1));
    }
}

#[test]
fn brief_compute_reads_flat_positions() {
    // the second sample of the pair lies past the end of the keypoint's row
    // and is read from the start of the next row
    let img = ramp_image(5);
    let kpts = vec![(3usize, 2usize)];
    let test_pairs: Vec<((usize, usize), (usize, usize))> = vec![((0, 0), (2, 0)), ((2, 0), (0, 0))];
    let descs = brief_compute(&img, &kpts, 3, 3, &test_pairs);
    assert_eq!(descs.len(), 1);
    // smoothed (3, 2) is 5; flat position 2 * 5 + 5 is pixel (0, 3), smoothed 3
    assert!(!descs[0].1.get(0));
    assert!(descs[0].1.get(1));
}
