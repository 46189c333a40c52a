use bpe_tokenizer::engine::BPE;
use bpe_tokenizer::errors::TokError;

// Vocabulary {"a": 0, "b": 1, "ab": 2}, base-64 encoded per line.
const AB_VOCAB: &[u8] = b"YQ== 0\nYg== 1\nYWI= 2\n";

#[test]
fn scenario_merge_ab() {
    let engine = BPE::new(".+", AB_VOCAB).unwrap();
    let toks = engine.encode("ab").unwrap();
    assert_eq!(toks, vec![2]);
    let text = engine.decode(&toks).unwrap();
    assert_eq!(text, "ab");
}

#[test]
fn scenario_missing_merge() {
    // No "ab" entry: the pair (a, b) is no merge candidate.
    let engine = BPE::new(".+", b"YQ== 0\nYg== 1\n").unwrap();
    let toks = engine.encode("ab").unwrap();
    assert_eq!(toks, vec![0, 1]);
}

#[test]
fn empty_text_encodes_to_no_tokens() {
    let engine = BPE::new(".+", AB_VOCAB).unwrap();
    assert_eq!(engine.encode("").unwrap(), Vec::<u32>::new());
}

#[test]
fn empty_tokens_decode_to_empty_text() {
    let engine = BPE::new(".+", AB_VOCAB).unwrap();
    assert_eq!(engine.decode(&[]).unwrap(), "");
}

#[test]
fn encoding_is_deterministic() {
    let engine = BPE::new(".+", AB_VOCAB).unwrap();
    let first = engine.encode("abab").unwrap();
    let second = engine.encode("abab").unwrap();
    assert_eq!(first, second);
}

#[test]
fn round_trip_restores_text() {
    let engine = BPE::new(".+", AB_VOCAB).unwrap();
    for text in ["a", "b", "ab", "ba", "abab", "aabba"] {
        let toks = engine.encode(text).unwrap();
        assert_eq!(engine.decode(&toks).unwrap(), text);
    }
}

#[test]
fn lowest_rank_merges_first() {
    // {"a": 0, "b": 1, "c": 2, "ab": 4, "bc": 3}: on "abc" the pair (b, c)
    // at rank 3 beats (a, b) at rank 4, leaving no further candidate.
    let engine = BPE::new(".+", b"YQ== 0\nYg== 1\nYw== 2\nYWI= 4\nYmM= 3\n").unwrap();
    assert_eq!(engine.encode("abc").unwrap(), vec![0, 3]);
}

#[test]
fn equal_rank_merges_leftmost_first() {
    // {"a": 0, "aa": 1}: on "aaa" both pairs concatenate to "aa" at rank 1;
    // the leftmost merges first, leaving ["aa", "a"].
    let engine = BPE::new(".+", b"YQ== 0\nYWE= 1\n").unwrap();
    assert_eq!(engine.encode("aaa").unwrap(), vec![1, 0]);
}

#[test]
fn merges_never_cross_chunk_boundaries() {
    // {"a": 0, "1": 1, "a1": 2} with a pattern that puts letters and digits
    // in separate chunks: "a1" must not merge across the boundary.
    let engine = BPE::new("[a-z]+|[0-9]+", b"YQ== 0\nMQ== 1\nYTE= 2\n").unwrap();
    assert_eq!(engine.encode("a1").unwrap(), vec![0, 1]);
    // One chunk, and the merge happens.
    let joined = BPE::new(".+", b"YQ== 0\nMQ== 1\nYTE= 2\n").unwrap();
    assert_eq!(joined.encode("a1").unwrap(), vec![2]);
}

#[test]
fn byte_without_entry_fails_encoding() {
    let engine = BPE::new(".+", b"YQ== 0\n").unwrap();
    let err = engine.encode("b").unwrap_err();
    assert_eq!(err, TokError::UnencodablePiece { piece: b"b".to_vec() });
}

#[test]
fn unknown_token_fails_decoding() {
    let engine = BPE::new(".+", AB_VOCAB).unwrap();
    let err = engine.decode(&[5]).unwrap_err();
    assert_eq!(err, TokError::UnknownToken { token: 5 });
}

#[test]
fn invalid_bytes_fail_decoding() {
    // 0xFF ("/w==") is never valid UTF-8.
    let engine = BPE::new(".+", b"/w== 0\nYQ== 1\n").unwrap();
    let err = engine.decode(&[0]).unwrap_err();
    assert_eq!(err, TokError::InvalidText);
}

#[test]
fn bad_pattern_fails_construction() {
    let err = BPE::new("(", AB_VOCAB).unwrap_err();
    assert_eq!(err, TokError::PatternInvalid);
}

#[test]
fn failures_are_per_call() {
    // Errors are plain return values: one call's failure never leaks into
    // another call's result.
    let engine = BPE::new(".+", b"YQ== 0\n").unwrap();
    let encode_err = engine.encode("b").unwrap_err();
    let decode_err = engine.decode(&[9]).unwrap_err();
    assert_eq!(encode_err, TokError::UnencodablePiece { piece: b"b".to_vec() });
    assert_eq!(decode_err, TokError::UnknownToken { token: 9 });
    assert_eq!(engine.encode("a").unwrap(), vec![0]);
}

#[test]
fn multibyte_text_round_trips() {
    // Single-byte entries for every byte of "é" (0xC3 0xA9: "w6k=" is the
    // pair, "ww==" and "qQ==" the bytes).
    let engine = BPE::new(".+", b"ww== 0\nqQ== 1\nw6k= 2\n").unwrap();
    let toks = engine.encode("\u{e9}").unwrap();
    assert_eq!(toks, vec![2]);
    assert_eq!(engine.decode(&toks).unwrap(), "\u{e9}");
}
