use zipvoice_rs::attention_layout::{AttentionLayout, HeadViews, attention_layout, head_views};

#[test]
fn layout_strides() {
    let layout = attention_layout(4, 32, 4, 10).unwrap();
    assert_eq!(
        layout,
        AttentionLayout {
            qkp_stride: (2 * 128 + 16) * 4,
            pos_stride: 16 * 4,
            seq_len2: 19,
            rel_stride: 18 * 4,
            rel_offset: 9 * 4,
        }
    );
    assert_eq!(attention_layout(4, 32, 4, 0), None);
    assert_eq!(attention_layout(usize::MAX, 2, 4, 10), None);
    assert_eq!(attention_layout(1, 1, 1, usize::MAX / 2), None);
}

#[test]
fn head_offsets() {
    assert_eq!(
        head_views(4, 32, 4, 2),
        HeadViews {
            q_offset: 64 * 4,
            k_offset: (128 + 64) * 4,
            p_offset: (256 + 8) * 4,
            pos_offset: 8 * 4,
        }
    );
}
