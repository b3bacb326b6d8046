use zipvoice_rs::text::escape_nul;

#[test]
fn escape_nul_rewrites_nul_characters() {
    assert_eq!(escape_nul("a\0b\0"), "a\\0b\\0");
    assert_eq!(escape_nul("plain"), "plain");
    assert_eq!(escape_nul(""), "");
}
