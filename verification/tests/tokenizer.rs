use zipvoice_rs::tokenizer::{Tokenizer, TokenizerErrorKind};

#[test]
fn tokenizer_reads_tab_separated_ids() {
    let tok = Tokenizer::from_tokens_txt("a\t1\nb\t2\n").unwrap();
    assert_eq!(tok.encode_chars("ab"), vec![1, 2]);
    assert_eq!(tok.encode_chars("ba"), vec![2, 1]);
}

#[test]
fn tokenizer_handles_crlf_lines() {
    let tok = Tokenizer::from_tokens_txt("a\t1\r\nb\t2").unwrap();
    assert_eq!(tok.encode_chars("ab"), vec![1, 2]);
}

#[test]
fn tokenizer_last_line_keeps_carriage_return() {
    let err = Tokenizer::from_tokens_txt("a\t1\r").err().unwrap();
    assert_eq!(err.kind, TokenizerErrorKind::BadTokenId);
    assert_eq!(err.line, "a\t1\r");
    assert_eq!(err.message(), "bad token id: a\t1\r");
}

#[test]
fn tokenizer_rejects_line_without_tab() {
    let err = Tokenizer::from_tokens_txt("a\t1\nabc\nb\tx").err().unwrap();
    assert_eq!(err.kind, TokenizerErrorKind::BadTokenLine);
    assert_eq!(err.line, "abc");
    assert_eq!(err.message(), "bad token line: abc");
}

#[test]
fn tokenizer_rejects_bad_id() {
    let err = Tokenizer::from_tokens_txt("a\tx").err().unwrap();
    assert_eq!(err.kind, TokenizerErrorKind::BadTokenId);
    assert_eq!(err.message(), "bad token id: a\tx");
}

#[test]
fn tokenizer_skips_empty_and_multi_char_tokens() {
    let tok = Tokenizer::from_tokens_txt("\nab\tnot-a-number\n\t5\nc\t3\n\n").unwrap();
    assert_eq!(tok.encode_chars("abc"), vec![3]);
}

#[test]
fn tokenizer_later_entry_wins() {
    let tok = Tokenizer::from_tokens_txt("a\t1\na\t2").unwrap();
    assert_eq!(tok.encode_chars("a"), vec![2]);
}

#[test]
fn tokenizer_trims_surrounding_whitespace_only() {
    let tok = Tokenizer::from_tokens_txt(" \t3\na\t1\nb\t2").unwrap();
    assert_eq!(tok.encode_chars("  a b  "), vec![1, 3, 2]);
    assert_eq!(tok.encode_chars("\u{3000}a\u{a0}"), vec![1]);
    assert_eq!(tok.encode_chars("   "), Vec::<i64>::new());
}

#[test]
fn tokenizer_drops_unknown_chars() {
    let tok = Tokenizer::from_tokens_txt("a\t1").unwrap();
    assert_eq!(tok.encode_chars("xay"), vec![1]);
    assert_eq!(tok.encode_chars(""), Vec::<i64>::new());
}

#[test]
fn tokenizer_signed_ids() {
    let tok = Tokenizer::from_tokens_txt("x\t-5\ny\t+7\nz\t-9223372036854775808").unwrap();
    assert_eq!(tok.encode_chars("xyz"), vec![-5, 7, i64::MIN]);
}

#[test]
fn tokenizer_rejects_out_of_range_id() {
    let err = Tokenizer::from_tokens_txt("z\t9223372036854775808").err().unwrap();
    assert_eq!(err.kind, TokenizerErrorKind::BadTokenId);
    let err = Tokenizer::from_tokens_txt("z\t+").err().unwrap();
    assert_eq!(err.kind, TokenizerErrorKind::BadTokenId);
    let err = Tokenizer::from_tokens_txt("z\t").err().unwrap();
    assert_eq!(err.kind, TokenizerErrorKind::BadTokenId);
}

#[test]
fn tokenizer_read_back_of_unicode_token() {
    let tok = Tokenizer::from_tokens_txt("ʃ\t42\nχ\t7").unwrap();
    assert_eq!(tok.encode_chars("ʃ"), vec![42]);
    assert_eq!(tok.encode_chars("χʃ"), vec![7, 42]);
}

#[test]
fn tokenizer_encoding_distributes_over_concatenation() {
    let tok = Tokenizer::from_tokens_txt("a\t1\nb\t2\nc\t3").unwrap();
    let mut joined = tok.encode_chars("ab");
    joined.extend(tok.encode_chars("ca"));
    assert_eq!(tok.encode_chars("abca"), joined);
}
