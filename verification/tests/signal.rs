use zipvoice_rs::signal::reflect_pad;

#[test]
fn reflect_pad_mirrors_edges() {
    assert_eq!(reflect_pad(&[1, 2, 3, 4], 2, 0), vec![3, 2, 1, 2, 3, 4, 3, 2]);
    assert_eq!(reflect_pad(&[1, 2], 3, 0), vec![2, 2, 2, 1, 2, 1, 1, 1]);
    assert_eq!(reflect_pad(&[5], 2, 0), vec![5, 5, 5, 5, 5]);
    assert_eq!(reflect_pad::<i32>(&[], 2, 0), vec![0, 0, 0, 0]);
    assert_eq!(reflect_pad(&[1, 2, 3], 0, 0), vec![1, 2, 3]);
}

use zipvoice_rs::signal::{input_blocks, resampled_len};

#[test]
fn input_blocks_pad_the_last_block() {
    assert_eq!(input_blocks(&[1, 2, 3, 4, 5], 2, 0), vec![vec![1, 2], vec![3, 4], vec![5, 0]]);
    assert_eq!(input_blocks(&[1, 2, 3, 4], 2, 0), vec![vec![1, 2], vec![3, 4]]);
    assert_eq!(input_blocks::<i32>(&[], 3, 0), Vec::<Vec<i32>>::new());
}

#[test]
fn resampled_length() {
    assert_eq!(resampled_len(44_100, 44_100, 24_000), Some(24_000));
    assert_eq!(resampled_len(1000, 16_000, 24_000), Some(1500));
    assert_eq!(resampled_len(usize::MAX, 1, 2), None);
}
