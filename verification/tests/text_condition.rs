use zipvoice_rs::text_condition::{
    TextPlan, expand_token_features, gather_embedding_rows, graph_token_ids, padding_mask,
    prompt_then_zeros, token_sequence,
};

#[test]
fn plan_totals_are_sums() {
    let plan = TextPlan::from_counts(3, 5, 30, 50);
    assert_eq!(plan.total_tokens, 8);
    assert_eq!(plan.total_frames, 80);
    assert_eq!(plan.prompt_frames, 30);
    assert_eq!(plan.predicted_frames, 50);
}

#[test]
fn expand_spreads_tokens_then_padding() {
    // two tokens and the padding token, two values each
    let features = vec![1, 10, 2, 20, 9, 90];
    let plan = TextPlan::from_counts(1, 1, 2, 3);
    // 5 frames over 2 tokens: 2 frames each, one padding frame
    let out = expand_token_features(&features, 2, &plan);
    assert_eq!(out, vec![1, 10, 1, 10, 2, 20, 2, 20, 9, 90]);
}

#[test]
fn expand_with_fewer_frames_than_tokens() {
    let features = vec![1, 2, 3, 4];
    let plan = TextPlan::from_counts(2, 1, 1, 1);
    // duration 0 is taken as 1: frames take tokens 0 and 1
    assert_eq!(expand_token_features(&features, 1, &plan), vec![1, 2]);
}

#[test]
fn expand_without_tokens_uses_padding() {
    let features = vec![7, 8];
    let plan = TextPlan::from_counts(0, 0, 2, 1);
    assert_eq!(expand_token_features(&features, 2, &plan), vec![7, 8, 7, 8, 7, 8]);
}

#[test]
fn token_sequence_appends_padding() {
    assert_eq!(token_sequence(&[1, 2], &[3], 0), vec![1, 2, 3, 0]);
    assert_eq!(token_sequence(&[], &[], 7), vec![7]);
}

#[test]
fn graph_ids_clamp_and_cut() {
    assert_eq!(graph_token_ids(&[-5, 0, 12, (1_i64 << 32) + 3]), vec![0, 0, 12, 3]);
}

#[test]
fn padding_mask_marks_padding_keys() {
    let mask = padding_mask(3, 2, 0.0_f32, -1.0e9_f32);
    assert_eq!(
        mask,
        vec![0.0, 0.0, -1.0e9, 0.0, 0.0, -1.0e9, 0.0, 0.0, -1.0e9]
    );
    assert_eq!(padding_mask(2, 5, 1, 0), vec![1, 1, 1, 1]);
}

#[test]
fn embedding_rows_for_tokens() {
    let table = vec![1.0_f32, 2.0, 3.0, 4.0];
    let out = gather_embedding_rows(&table, 2, 2, &[1, -3, 5], 0.0);
    assert_eq!(out, vec![3.0, 4.0, 1.0, 2.0, 0.0, 0.0]);
}

#[test]
fn prompt_then_zeros_fills_the_rest() {
    assert_eq!(prompt_then_zeros(&[5, 6], 4, 0), vec![5, 6, 0, 0]);
    assert_eq!(prompt_then_zeros(&[5, 6], 2, 0), vec![5, 6]);
}

#[test]
fn frames_take_tokens_in_order() {
    let features: Vec<usize> = (0..8).collect();
    let plan = TextPlan::from_counts(3, 4, 10, 13);
    let out = expand_token_features(&features, 1, &plan);
    assert_eq!(out.len(), 23);
    assert!(out.windows(2).all(|w| w[0] <= w[1]));
    assert!(out.iter().all(|&t| t <= plan.total_tokens));
    assert_eq!(out[0], 0);
    assert_eq!(out[22], 7);
}
