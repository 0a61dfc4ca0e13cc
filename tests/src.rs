use signal_kit::mat::Shape;
use signal_kit::sink::{and, or, xor};
use signal_kit::src::{append_frame, checkered, from_greyscale};
use signal_kit::sink::greyscale_pixels;
use signal_kit::mat::{zeros, Index};

#[test]
fn generates_checkered_images() {
    assert_eq!(
        checkered(&Shape(vec![4, 4])).unrolled,
        vec![0, 255, 0, 255, 255, 0, 255, 0, 0, 255, 0, 255, 255, 0, 255, 0]
    )
}

#[test]
fn checkered_of_a_row() {
    assert_eq!(checkered(&Shape(vec![3])).unrolled, vec![0, 255, 0]);
}

#[test]
fn checkered_of_empty_shape() {
    assert_eq!(checkered(&Shape(vec![])).unrolled, vec![0]);
}

#[test]
fn boolean_folds() {
    assert!(and(&[]));
    assert!(and(&[true, true]));
    assert!(!and(&[true, false]));
    assert!(!or(&[]));
    assert!(or(&[false, true]));
    assert!(!or(&[false, false]));
    assert!(!xor(&[]));
    assert!(xor(&[false, true, false]));
    assert!(!xor(&[true, true]));
    assert!(!xor(&[true, true, true]));
}

#[test]
fn frames_append_per_channel() {
    let gathered: Vec<Vec<f32>> = vec![vec![0.5], vec![-0.5]];
    let merged = append_frame(gathered, vec![vec![1.0, 2.0], vec![3.0]]);
    assert_eq!(merged, vec![vec![0.5, 1.0, 2.0], vec![-0.5, 3.0]]);
    let grown = append_frame(merged, vec![vec![4.0], vec![5.0], vec![6.0]]);
    assert_eq!(grown, vec![vec![0.5, 1.0, 2.0, 4.0], vec![-0.5, 3.0, 5.0], vec![6.0]]);
    let shrunk = append_frame(grown, vec![vec![7.0]]);
    assert_eq!(shrunk, vec![vec![0.5, 1.0, 2.0, 4.0, 7.0]]);
    let empty: Vec<Vec<f32>> = append_frame(Vec::new(), Vec::new());
    assert!(empty.is_empty());
}

#[test]
fn greyscale_round_trip() {
    // two rows, three columns, given row by row
    let pixels: Vec<u8> = vec![1, 2, 3, 4, 5, 6];
    let m = from_greyscale(2, 3, &pixels);
    assert_eq!(m.shape, Shape(vec![2, 3]));
    assert_eq!(m.index(&Index(vec![0, 2])), 3);
    assert_eq!(m.index(&Index(vec![1, 0])), 4);
    assert_eq!(m.unrolled, vec![1, 4, 2, 5, 3, 6]);
    assert_eq!(greyscale_pixels(&m), Some(pixels));
}

#[test]
fn greyscale_pixels_clamp_and_rank() {
    let mut m = zeros(&Shape(vec![1, 3]));
    m.index_mut(&Index(vec![0, 0]), -4);
    m.index_mut(&Index(vec![0, 1]), 300);
    m.index_mut(&Index(vec![0, 2]), 128);
    assert_eq!(greyscale_pixels(&m), Some(vec![0, 255, 128]));
    assert_eq!(greyscale_pixels(&zeros(&Shape(vec![2, 2, 2]))), None);
    assert_eq!(greyscale_pixels(&zeros(&Shape(vec![4]))), None);
}

#[test]
fn checkered_image_pixels() {
    let m = checkered(&Shape(vec![2, 3]));
    assert_eq!(greyscale_pixels(&m), Some(vec![0, 255, 0, 255, 0, 255]));
}
