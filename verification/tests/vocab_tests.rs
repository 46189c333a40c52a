use bpe_tokenizer::engine::BPE;
use bpe_tokenizer::errors::TokError;
use bpe_tokenizer::vocab::{parse_rank, parse_vocab};

#[test]
fn three_fields_reject_construction() {
    let err = BPE::new(".+", b"YQ== 0 extra\n").unwrap_err();
    assert_eq!(err, TokError::VocabLineFormat { line: b"YQ== 0 extra".to_vec() });
}

#[test]
fn one_field_rejects_construction() {
    let err = BPE::new(".+", b"YQ==\n").unwrap_err();
    assert_eq!(err, TokError::VocabLineFormat { line: b"YQ==".to_vec() });
}

#[test]
fn non_integer_rank_rejects_construction() {
    let err = BPE::new(".+", b"YQ== 0\nYg== xyz\n").unwrap_err();
    assert_eq!(err, TokError::VocabBadRank { line: b"Yg== xyz".to_vec() });
}

#[test]
fn bad_base64_rejects_construction() {
    let err = parse_vocab(b"@@ 0\n").unwrap_err();
    assert_eq!(err, TokError::VocabBadBase64 { line: b"@@ 0".to_vec() });
}

#[test]
fn first_bad_line_wins() {
    let err = parse_vocab(b"YQ== 0\nYg== bad\n@@ 0\n").unwrap_err();
    assert_eq!(err, TokError::VocabBadRank { line: b"Yg== bad".to_vec() });
}

#[test]
fn blank_lines_are_skipped() {
    let vocab = parse_vocab(b"\n\nYQ== 0\n   \n\nYg== 1\n\n").unwrap();
    assert_eq!(vocab.len(), 2);
    assert_eq!(vocab.rank_of(b"a"), Some(0));
    assert_eq!(vocab.rank_of(b"b"), Some(1));
}

#[test]
fn missing_final_newline_is_fine() {
    let vocab = parse_vocab(b"YQ== 0\nYg== 1").unwrap();
    assert_eq!(vocab.rank_of(b"b"), Some(1));
}

#[test]
fn surrounding_whitespace_is_trimmed() {
    let vocab = parse_vocab(b"  YQ== 0  \r\n\tYg== 1\t\n").unwrap();
    assert_eq!(vocab.rank_of(b"a"), Some(0));
    assert_eq!(vocab.rank_of(b"b"), Some(1));
}

#[test]
fn duplicate_byte_sequence_keeps_last_rank() {
    let vocab = parse_vocab(b"YQ== 0\nYQ== 7\nYg== 1\n").unwrap();
    assert_eq!(vocab.len(), 2);
    assert_eq!(vocab.rank_of(b"a"), Some(7));
    let engine = BPE::new(".+", b"YQ== 0\nYQ== 7\nYg== 1\n").unwrap();
    assert_eq!(engine.encode("a").unwrap(), vec![7]);
}

#[test]
fn reverse_lookup_finds_bytes() {
    let vocab = parse_vocab(b"YQ== 0\nYWI= 2\n").unwrap();
    assert_eq!(vocab.bytes_of(2), Some(b"ab".to_vec()));
    assert_eq!(vocab.bytes_of(1), None);
}

#[test]
fn rank_fits_or_rejects() {
    assert!(parse_vocab(b"YQ== 4294967295\n").is_ok());
    let err = parse_vocab(b"YQ== 4294967296\n").unwrap_err();
    assert_eq!(err, TokError::VocabBadRank { line: b"YQ== 4294967296".to_vec() });
}

#[test]
fn rank_parsing_details() {
    assert_eq!(parse_rank(b"007"), Some(7));
    assert_eq!(parse_rank(b"+5"), Some(5));
    assert_eq!(parse_rank(b""), None);
    assert_eq!(parse_rank(b"+"), None);
    assert_eq!(parse_rank(b"12x"), None);
    assert_eq!(parse_rank(b"4294967295"), Some(u32::MAX));
    assert_eq!(parse_rank(b"99999999999999999999"), None);
}

#[test]
fn vocabulary_error_reported_before_pattern_error() {
    // The vocabulary is parsed first, so its error wins over a bad pattern.
    let err = BPE::new("(", b"YQ== 0 extra\n").unwrap_err();
    assert_eq!(err, TokError::VocabLineFormat { line: b"YQ== 0 extra".to_vec() });
}

#[test]
fn empty_source_gives_empty_vocabulary() {
    let vocab = parse_vocab(b"").unwrap();
    assert_eq!(vocab.len(), 0);
    assert_eq!(vocab.rank_of(b"a"), None);
}
