use improc::circle::create_circle;
use improc::fast::{
    calc_crf, detect_corners, detect_corners_by_response, intensity_moments, order_by_response,
    Corner, ResponseThreshold,
};
use improc::image::Image;

fn gray_image<F: Fn(usize, usize) -> u8>(width: usize, height: usize, f: F) -> Image {
    let mut data = Vec::new();
    for y in 0..height {
        for x in 0..width {
            data.push(f(x, y));
        }
    }
    Image::new(width, height, 1, data).unwrap()
}

// threshold 10.0
fn threshold_ten() -> ResponseThreshold {
    ResponseThreshold { floor: 10, integral: true }
}

// corners ordered by response, as the detector reports them
fn detect(img: &Image, radius: u32) -> Vec<Corner> {
    let circle = create_circle(radius);
    detect_corners_by_response(img, radius, &circle, &threshold_ten())
}

fn assert_positions(key_points: &[Corner], expected: &[(usize, usize)]) {
    assert_eq!(key_points.len(), expected.len());
    for (kp, &(x, y)) in key_points.iter().zip(expected) {
        assert_eq!(kp.x, x);
        assert_eq!(kp.y, y);
    }
}

#[test]
fn fast_detect() {
    let img = gray_image(32, 32, |x, y| if (x < 16) && (y >= 16) { 255 } else { 0 });
    let key_points = detect(&img, 3);
    assert_eq!(key_points.len(), 8);
    assert_positions(
        &key_points,
        &[(13, 16), (14, 16), (15, 16), (13, 17), (14, 17), (15, 17), (14, 18), (15, 18)],
    );
}

#[test]
fn fast_fast_detect() {
    let img = gray_image(32, 32, |x, y| if (x < 16) && (y >= 16) { 255 } else { 0 });
    let key_points = detect(&img, 3);
    assert_eq!(key_points.len(), 8);
    assert_positions(
        &key_points,
        &[(13, 16), (14, 16), (15, 16), (13, 17), (14, 17), (15, 17), (14, 18), (15, 18)],
    );
}

#[test]
fn fast_detect2() {
    let img = gray_image(32, 32, |x, y| if (x >= 16) && (y >= 16) { 255 } else { 0 });
    let key_points = detect(&img, 3);
    assert_eq!(key_points.len(), 8);
    assert_positions(
        &key_points,
        &[(16, 16), (17, 16), (18, 16), (16, 17), (17, 17), (18, 17), (16, 18), (17, 18)],
    );
}

#[test]
fn fast_detect3() {
    let img = gray_image(32, 32, |x, y| if (x < 16) && (y < 16) { 255 } else { 0 });
    let key_points = detect(&img, 3);
    assert_eq!(key_points.len(), 8);
}

#[test]
fn fast_detect4() {
    let img = gray_image(32, 32, |x, y| if (x >= 16) && (y < 16) { 255 } else { 0 });
    let key_points = detect(&img, 3);
    assert_eq!(key_points.len(), 8);
}

#[test]
fn fast_flat_image_has_no_corner() {
    let img = gray_image(16, 16, |_, _| 77);
    assert!(detect(&img, 3).is_empty());
    // an image narrower than the circle gives nothing either
    let small = gray_image(5, 5, |x, _| (x * 50) as u8);
    assert!(detect(&small, 3).is_empty());
}

#[test]
fn fast_isolated_dot_response() {
    // one bright pixel: left/right and top/bottom responses are 0 for its
    // neighbours, so only the dot itself can pass; its response is 2 * 200²
    let img = gray_image(9, 9, |x, y| if x == 4 && y == 4 { 200 } else { 0 });
    let corners = detect(&img, 3);
    assert_eq!(corners.len(), 1);
    assert_eq!((corners[0].x, corners[0].y), (4, 4));
    assert_eq!(corners[0].response, 80000);
}

#[test]
fn fast_threshold_comparisons() {
    // threshold 80000 exactly: the dot's response is not above it
    let img = gray_image(9, 9, |x, y| if x == 4 && y == 4 { 200 } else { 0 });
    let circle = create_circle(3);
    let t = ResponseThreshold { floor: 80000, integral: true };
    assert!(detect_corners(&img, 3, &circle, &t).is_empty());
    // threshold 79999.5: the response is above it
    let t = ResponseThreshold { floor: 79999, integral: false };
    assert_eq!(detect_corners(&img, 3, &circle, &t).len(), 1);
    let t = ResponseThreshold { floor: 80000, integral: false };
    assert!(t.is_below(80000));
    assert!(!t.is_above(80000));
    let t = ResponseThreshold { floor: 80000, integral: true };
    assert!(!t.is_below(80000));
    assert!(!t.is_above(80000));
}

#[test]
fn test_clac_crf() {
    assert_eq!(calc_crf(0, 1, -1), 2);
    assert_eq!(calc_crf(1, 1, -1), 4);
    assert_eq!(calc_crf(1, 2, -1), 5);
}

#[test]
fn fast_test_clac_crf() {
    assert_eq!(calc_crf(0, 1, -1), 2);
    assert_eq!(calc_crf(1, 1, -1), 4);
    assert_eq!(calc_crf(1, 2, -1), 5);
}

fn close(p: (i64, i64), x: f32, y: f32) -> bool {
    (p.0 as f32 - x).abs() < 1e-5 && (p.1 as f32 - y).abs() < 1e-5
}

#[test]
fn fast3() {
    let circle_points = create_circle(3);
    assert_eq!(circle_points.len(), 16);
    assert!(close(circle_points[0], 3.0, 0.0));
    assert!(close(circle_points[1], 3.0, 1.0));
    assert!(close(circle_points[2], 2.0, 2.0));
    assert!(close(circle_points[3], 1.0, 3.0));
    assert!(close(circle_points[4], 0.0, 3.0));
    assert!(close(circle_points[5], -1.0, 3.0));
    assert!(close(circle_points[10], -2.0, -2.0));
    assert!(close(circle_points[15], 3.0, -1.0));
}

#[test]
fn fast_fast3() {
    let circle_points = create_circle(3);
    assert_eq!(circle_points.len(), 16);
    assert!(close(circle_points[0], 3.0, 0.0));
    assert!(close(circle_points[1], 3.0, 1.0));
    assert!(close(circle_points[2], 2.0, 2.0));
    assert!(close(circle_points[3], 1.0, 3.0));
    assert!(close(circle_points[4], 0.0, 3.0));
    assert!(close(circle_points[5], -1.0, 3.0));
    assert!(close(circle_points[10], -2.0, -2.0));
    assert!(close(circle_points[15], 3.0, -1.0));
}

#[test]
fn fast5() {
    let circle_points = create_circle(5);
    assert_eq!(circle_points.len(), 28);
    assert!(close(circle_points[0], 5.0, 0.0));
    assert!(close(circle_points[1], 5.0, 1.0));
    assert!(close(circle_points[2], 5.0, 2.0));
    assert!(close(circle_points[3], 4.0, 3.0));
    assert!(close(circle_points[4], 3.0, 4.0));
    assert!(close(circle_points[5], 2.0, 5.0));
    assert!(close(circle_points[6], 1.0, 5.0));
    assert!(close(circle_points[7], 0.0, 5.0));
    assert!(close(circle_points[8], -1.0, 5.0));
    for i in 0..14 {
        let p0 = circle_points[i];
        let p1 = circle_points[14 + i];
        assert!(((p0.0 + p1.0) as f32).abs() < 1e-5);
        assert!(((p0.1 + p1.1) as f32).abs() < 1e-5);
    }
}

#[test]
fn fast_fast5() {
    let circle_points = create_circle(5);
    assert_eq!(circle_points.len(), 28);
    assert!(close(circle_points[0], 5.0, 0.0));
    assert!(close(circle_points[1], 5.0, 1.0));
    assert!(close(circle_points[2], 5.0, 2.0));
    assert!(close(circle_points[3], 4.0, 3.0));
    assert!(close(circle_points[4], 3.0, 4.0));
    assert!(close(circle_points[5], 2.0, 5.0));
    assert!(close(circle_points[6], 1.0, 5.0));
    assert!(close(circle_points[7], 0.0, 5.0));
    assert!(close(circle_points[8], -1.0, 5.0));
}

#[test]
fn fast9() {
    let circle_points = create_circle(9);
    let n_pts = circle_points.len();
    let n_half = n_pts / 2;
    for i in 0..n_half {
        let p0 = circle_points[i];
        let p1 = circle_points[n_half + i];
        assert!(((p0.0 + p1.0) as f32).abs() < 1e-5);
        assert!(((p0.1 + p1.1) as f32).abs() < 1e-5);
    }
}

#[test]
fn circle_of_radius_one() {
    let circle_points = create_circle(1);
    assert_eq!(circle_points, vec![(1, 0), (0, 1), (-1, 0), (0, -1)]);
}

#[test]
fn test_calc_direction() {
    let img = Image::new(3, 3, 1, vec![
        0, 0, 0,
        0, 0, 0,
        0, 0, 1,
    ]).unwrap();
    let (m10, m01) = intensity_moments(&img, 1, 1, 1);
    let dir = (m01 as f32).atan2(m10 as f32);
    assert!(
        (dir - std::f32::consts::FRAC_PI_4).abs() < 1e-5,
        "direction = {}",
        dir
    );
}

#[test]
fn moments_are_signed_sums() {
    let img = Image::new(3, 3, 1, vec![
        5, 0, 0,
        0, 9, 0,
        0, 0, 0,
    ]).unwrap();
    assert_eq!(intensity_moments(&img, 1, 1, 1), (-5, -5));
}

#[test]
fn order_by_response_is_stable() {
    let responses: Vec<i64> = vec![5, 3, 5, -1, 3, 9];
    assert_eq!(order_by_response(&responses), vec![3, 1, 4, 0, 2, 5]);
    assert_eq!(order_by_response(&Vec::new()), Vec::<usize>::new());
}

#[test]
fn corners_by_response_reorders_raster_corners() {
    // two bright dots of different contrast: both are corners, the weaker
    // one comes first although it is later in raster order
    let img = gray_image(16, 16, |x, y| {
        if (x, y) == (4, 4) {
            250
        } else if (x, y) == (10, 10) {
            100
        } else {
            0
        }
    });
    let circle = create_circle(3);
    let raster = detect_corners(&img, 3, &circle, &threshold_ten());
    let sorted = detect_corners_by_response(&img, 3, &circle, &threshold_ten());
    assert_eq!(raster.len(), 2);
    assert_eq!((raster[0].x, raster[0].y), (4, 4));
    assert_eq!(raster[0].response, 2 * 250 * 250);
    assert_eq!(raster[1].response, 2 * 100 * 100);
    assert_eq!(sorted.len(), 2);
    assert_eq!((sorted[0].x, sorted[0].y, sorted[0].response), (10, 10, 20000));
    assert_eq!((sorted[1].x, sorted[1].y, sorted[1].response), (4, 4, 125000));
}
