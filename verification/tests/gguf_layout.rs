use zipvoice_rs::gguf_layout::{
    TensorRangeError, element_count, le_words_u16, le_words_u32, tensor_absolute_offset,
    tensor_data_end, tensor_dims, tensor_index_valid,
};

#[test]
fn index_validity() {
    assert!(tensor_index_valid(0, 3));
    assert!(tensor_index_valid(2, 3));
    assert!(!tensor_index_valid(3, 3));
    assert!(!tensor_index_valid(-1, 3));
}

#[test]
fn absolute_offset_and_end() {
    assert_eq!(tensor_absolute_offset(100, 28, 8), Ok(128));
    assert_eq!(
        tensor_absolute_offset(usize::MAX, 1, 8),
        Err(TensorRangeError { offset: 1, size: 8 })
    );
    assert_eq!(tensor_data_end(128, 8, 136), Ok(136));
    assert_eq!(tensor_data_end(128, 8, 135), Err(TensorRangeError { offset: 128, size: 8 }));
    assert_eq!(
        tensor_data_end(usize::MAX, 2, u64::MAX),
        Err(TensorRangeError { offset: usize::MAX, size: 2 })
    );
}

#[test]
fn little_endian_words() {
    let bytes = 1.0_f32.to_le_bytes().into_iter().chain(0xdead_beef_u32.to_le_bytes()).collect::<Vec<_>>();
    assert_eq!(le_words_u32(&bytes), Some(vec![1.0_f32.to_bits(), 0xdead_beef]));
    assert_eq!(le_words_u32(&bytes[..5]), None);
    assert_eq!(le_words_u16(&[0x34, 0x12, 0xff, 0x00]), Some(vec![0x1234, 0x00ff]));
    assert_eq!(le_words_u16(&[1, 2, 3]), None);
    assert_eq!(le_words_u32(&[]), Some(vec![]));
}

#[test]
fn element_counts() {
    assert_eq!(element_count(&[]), Some(1));
    assert_eq!(element_count(&[3, 4, 5]), Some(60));
    assert_eq!(element_count(&[usize::MAX, 2, 0]), None);
    assert_eq!(element_count(&[0, usize::MAX, 2]), Some(0));
}

#[test]
fn dims_for_new_tensors() {
    assert_eq!(tensor_dims(&[]), ([1, 1, 1, 1], 1));
    assert_eq!(tensor_dims(&[5, 7]), ([5, 7, 1, 1], 2));
    assert_eq!(tensor_dims(&[1, 2, 3, 4, 5]), ([1, 2, 3, 4], 4));
}
