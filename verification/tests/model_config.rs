use zipvoice_rs::model_config::TensorNameMap;

#[test]
fn name_map_finds_short_names() {
    let map = TensorNameMap::from_json(r#"{"t0": "embed.weight", "t1": "text_encoder.in_proj.bias"}"#)
        .unwrap();
    assert_eq!(map.short_name("embed.weight"), Some("t0"));
    assert_eq!(map.short_name("text_encoder.in_proj.bias"), Some("t1"));
    assert_eq!(map.short_name("missing"), None);
}

#[test]
fn name_map_rejects_non_object() {
    assert!(TensorNameMap::from_json("[1, 2]").is_err());
    assert!(TensorNameMap::from_json("{\"a\": 1}").is_err());
    assert!(TensorNameMap::from_json("not json").is_err());
}
