use improc::suppress::suppress_non_maxima;

#[test]
fn test_nms() {
    // keypoints (x, y, cornerness), visited from the strongest
    let kpts = vec![(3usize, 3usize, 10.0f32), (3, 4, 12.5), (3, 6, 11.8), (5, 4, 11.5), (3, 2, 8.0)];
    let mut order: Vec<usize> = (0..kpts.len()).collect();
    order.sort_by(|&a, &b| kpts[b].2.partial_cmp(&kpts[a].2).unwrap());
    let points: Vec<(usize, usize)> = order.iter().map(|&i| (kpts[i].0, kpts[i].1)).collect();
    let kept = suppress_non_maxima(&points, 3);
    let supressed: Vec<f32> = kept.iter().map(|&k| kpts[order[k]].2).collect();
    assert_eq!(supressed.len(), 4);
    assert!((supressed[0] - 12.5).abs() < 1e-5);
    assert!((supressed[1] - 11.8).abs() < 1e-5);
    assert!((supressed[2] - 11.5).abs() < 1e-5);
    assert!((supressed[3] - 8.0).abs() < 1e-5);
}

#[test]
fn nms_empty_and_single() {
    assert!(suppress_non_maxima(&vec![], 5).is_empty());
    assert_eq!(suppress_non_maxima(&vec![(7, 7)], 5), vec![0]);
}

#[test]
fn nms_window_is_open() {
    // kernel 4: half-width 2, a distance of exactly 2 is outside the window
    let points = vec![(10, 10), (12, 10), (11, 11), (10, 8)];
    assert_eq!(suppress_non_maxima(&points, 4), vec![0, 1, 3]);
    // kernel 1 keeps everything but exact duplicates
    let points = vec![(1, 1), (1, 2), (1, 1)];
    assert_eq!(suppress_non_maxima(&points, 1), vec![0, 1]);
}
