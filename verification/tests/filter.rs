use improc::filter::median_filter;
use improc::image::{padding, Image};

fn rgb_image<F: Fn(usize, usize) -> [u8; 3]>(width: usize, height: usize, f: F) -> Image {
    let mut data = Vec::new();
    for y in 0..height {
        for x in 0..width {
            data.extend_from_slice(&f(x, y));
        }
    }
    Image::new(width, height, 3, data).unwrap()
}

#[test]
fn test_padding() {
    let length = 10;
    let kernel = 5;
    let test_image = rgb_image(length, length, |x, y| [(x + y) as u8, x as u8, y as u8]);
    let padded = padding(&test_image, kernel / 2);
    let dst_size = length as usize + kernel / 2 * 2;
    assert_eq!(padded.len(), dst_size * dst_size * 3);
    assert_eq!(padded[0], 0);
    let y_stride = 3 * dst_size;
    assert_eq!(
        padded[3 * (kernel / 2 + 1) as usize - 1],
        0,
        "y = 0, x = {}, c = {}",
        kernel / 2 + 1,
        2
    );
    assert_eq!(
        padded[3 * (kernel / 2 + 1) as usize + 0],
        1,
        "y = 0, x = {}, c = {}",
        kernel / 2 + 2,
        0
    );
    assert_eq!(
        padded[3 * (kernel / 2 + 1) as usize + 1],
        1,
        "y = 0, x = {}, c = {}",
        kernel / 2 + 2,
        1
    );
    assert_eq!(
        padded[3 * (kernel / 2 + 1) as usize + 2],
        0,
        "y = 0, x = {}, c = {}",
        kernel / 2 + 2,
        2
    );
    assert_eq!(
        padded[3 * (length as usize + kernel / 2 + 1) as usize + 0],
        length as u8 - 1
    );
    assert_eq!(
        padded[3 * (length as usize + kernel / 2 + 1) as usize + 1],
        length as u8 - 1
    );
    assert_eq!(
        padded[3 * (length as usize + kernel / 2 + 1) as usize + 1],
        length as u8 - 1
    );
    assert_eq!(
        padded[3 * (length as usize + kernel / 2 + 1) as usize + 2],
        0
    );
    let rb = (y_stride + 3) * (length as usize + kernel / 2);
    assert_eq!(padded[rb + 0], ((length - 1) * 2) as u8);
    assert_eq!(padded[rb + 1], (length - 1) as u8);
    assert_eq!(padded[rb + 2], (length - 1) as u8);
    assert_eq!(padded[rb + 3], ((length - 1) * 2) as u8);
    assert_eq!(padded[rb + 4], (length - 1) as u8);
    assert_eq!(padded[rb + 5], (length - 1) as u8);
}

#[test]
fn padding_replicates_every_edge() {
    let img = Image::new(2, 2, 1, vec![1, 2, 3, 4]).unwrap();
    let padded = padding(&img, 1);
    let expected: Vec<u8> = vec![
        1, 1, 2, 2,
        1, 1, 2, 2,
        3, 3, 4, 4,
        3, 3, 4, 4,
    ];
    assert_eq!(padded, expected);
}

#[test]
fn padding_zero_is_identity() {
    let img = rgb_image(3, 2, |x, y| [x as u8, y as u8, 7]);
    let padded = padding(&img, 0);
    assert_eq!(&padded, img.as_raw());
}

#[test]
fn test_median_filter() {
    let length: usize = 10;
    let test_image = rgb_image(length, length, |x, y| [x as u8, y as u8, 0]);
    let kernel: u32 = 5;
    let res = median_filter(&test_image, kernel);
    let x_stride: usize = 3;
    let y_stride: usize = length as usize * x_stride;

    assert_eq!(res[0], 0);
    assert_eq!(res[1], 0);
    assert_eq!(res[2], 0);
    assert_eq!(res[y_stride * 2 + x_stride * 2 as usize + 0], 2);
    assert_eq!(res[y_stride * 2 + x_stride * 2 as usize + 1], 2);
    assert_eq!(res[y_stride * 2 + x_stride * 2 as usize + 2], 0);
}

#[test]
fn median_filter_is_window_mean() {
    let img = Image::new(3, 3, 1, vec![
        0, 9, 0,
        9, 9, 9,
        0, 9, 0,
    ]).unwrap();
    let res = median_filter(&img, 3);
    assert_eq!(res.len(), 9);
    // centre: (0+9+0+9+9+9+0+9+0) / 9 = 45 / 9
    assert_eq!(res[4], 5);
    // corner (0, 0): window rows -1..=1 clamp to 0,0,1 and the same columns
    // 0 0 9 / 0 0 9 / 9 9 9 -> 45 / 9
    assert_eq!(res[0], 5);
    // constant image stays constant
    let flat = Image::new(4, 3, 2, vec![200; 24]).unwrap();
    assert_eq!(median_filter(&flat, 3), vec![200; 24]);
    // a kernel of one pixel changes nothing
    assert_eq!(median_filter(&img, 1), img.as_raw().clone());
}

#[test]
fn image_new_checks_the_sample_count() {
    assert!(Image::new(2, 2, 3, vec![0; 12]).is_some());
    assert!(Image::new(2, 2, 3, vec![0; 11]).is_none());
    assert!(Image::new(0, 5, 1, vec![]).is_some());
}
