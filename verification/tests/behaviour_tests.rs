use fast_bpe_rs::bpe::BPE;
use fast_bpe_rs::dataset::is_train_file;
use fast_bpe_rs::error::BPEError;
use fast_bpe_rs::types::TokenId;

#[test]
fn default_model_roundtrips_the_quick_start_text() {
    let mut bpe = BPE::default();
    bpe.train(257, &["banana banana"]).expect("training should succeed");

    let ids = bpe.encode("banana banana").expect("encoding should succeed");
    let bytes = bpe.decode(&ids);

    assert_eq!(bytes, b"banana banana");
}

#[test]
fn default_model_splits_words_before_training() {
    let bpe = BPE::default();
    let ids = bpe.encode("hi there").expect("encoding should succeed");
    assert_eq!(ids, b"hi there".iter().map(|&b| b as TokenId).collect::<Vec<_>>());
}

#[test]
fn special_tokens_quick_start_keeps_ids_and_text() {
    let mut bpe = BPE::new(Some("(?s).+"), Some(&[("<pad>", 900), ("<eos>", 901)]))
        .expect("valid config");
    bpe.train(905, &["a<pad>a", "<pad><eos><pad>"]).expect("training should succeed");

    let ids = bpe.encode("a<pad><eos>a").expect("encoding should succeed");
    assert_eq!(ids, vec![97, 900, 901, 97]);
    assert_eq!(bpe.decode(&[900, 901]), b"<pad><eos>".to_vec());
}

#[test]
fn decode_skips_unknown_token_ids() {
    let bpe = BPE::new(Some("(?s).+"), Some(&[("<eos>", 300)])).expect("valid config");
    assert_eq!(bpe.decode(&[104, 99_999, 105, 300, 257]), b"hi<eos>".to_vec());
}

#[test]
fn learned_merges_avoid_special_ids_and_increase() {
    let mut bpe = BPE::new(Some("(?s).+"), Some(&[("<x>", 257), ("<y>", 259)])).expect("valid config");
    bpe.train(262, &["aaaa<x>bbbb<y>aaab", "ab ab ab ba"]).expect("training should succeed");

    let mut ids: Vec<TokenId> = bpe
        .merge_pairs()
        .into_iter()
        .map(|(left, right)| bpe.merged_id(left, right).expect("listed pair has an id"))
        .collect();
    ids.sort();
    for &id in &ids {
        assert!(id >= 256 && id < 262);
        assert!(id != 257 && id != 259);
    }
    assert_eq!(ids, vec![256, 258, 260, 261]);
    for (left, right) in bpe.merge_pairs() {
        assert!(left != 257 && left != 259 && right != 257 && right != 259);
    }
}

#[test]
fn training_result_does_not_depend_on_document_order() {
    let docs = ["the cat sat", "on the mat", "the hat"];
    let reordered = ["the hat", "the cat sat", "on the mat"];

    let mut first = BPE::new(Some(r"\S+"), None).expect("valid config");
    first.train(264, &docs).expect("training should succeed");
    let mut second = BPE::new(Some(r"\S+"), None).expect("valid config");
    second.train(264, &reordered).expect("training should succeed");

    let mut first_merges: Vec<_> = first
        .merge_pairs()
        .into_iter()
        .map(|(l, r)| (l, r, first.merged_id(l, r)))
        .collect();
    let mut second_merges: Vec<_> = second
        .merge_pairs()
        .into_iter()
        .map(|(l, r)| (l, r, second.merged_id(l, r)))
        .collect();
    first_merges.sort();
    second_merges.sort();
    assert_eq!(first_merges, second_merges);
    assert_eq!(first_merges.len(), 8);
}

#[test]
fn special_token_text_is_matched_literally() {
    let bpe = BPE::new(Some("(?s).+"), Some(&[("a.b", 300), ("(x)", 301)])).expect("valid config");
    assert_eq!(bpe.encode("axb").expect("encoding should succeed"), vec![97, 120, 98]);
    assert_eq!(bpe.encode("a.b").expect("encoding should succeed"), vec![300]);
    assert_eq!(bpe.encode("x(x)").expect("encoding should succeed"), vec![120, 301]);
}

#[test]
fn regex_that_exhausts_backtracking_reports_evaluation_error() {
    let pattern = "(?i)(a|b|ab)*(?>c)";
    let bpe = BPE::new(Some(pattern), None).expect("pattern compiles");
    let text = format!("{}xc", "ab".repeat(40));
    match bpe.encode(&text) {
        Err(BPEError::RegexEvaluation(_)) => {}
        other => panic!("expected a regex evaluation error, got {other:?}"),
    }
    let mut training = BPE::new(Some(pattern), None).expect("pattern compiles");
    match training.train(300, &[text.as_str()]) {
        Err(BPEError::RegexEvaluation(_)) => {}
        other => panic!("expected a regex evaluation error, got {other:?}"),
    }
}

#[test]
fn error_messages_describe_each_variant() {
    let duplicate = BPEError::DuplicateSpecialTokenId { token_id: 900 };
    assert_eq!(duplicate.message(), "special token id 900 is assigned more than once");

    let reserved = BPEError::SpecialTokenIdOverlapsBaseVocab { token: "<pad>".to_string(), token_id: 7 };
    assert_eq!(
        reserved.message(),
        "special token \"<pad>\" uses reserved token id 7; special token ids must be >= 256"
    );

    let invalid = BPE::new(Some("("), None).err().expect("invalid pattern is refused");
    assert!(matches!(invalid, BPEError::InvalidSplitRegex(_)));
    assert!(invalid.message().starts_with("invalid split regex: "));
    assert!(invalid.message().len() > "invalid split regex: ".len());

    assert_eq!(BPEError::CountOverflow.message(), "chunk or pair counts exceed the u32 range");
}

#[test]
fn retraining_keeps_special_tokens_and_byte_vocabulary() {
    let mut bpe = BPE::new(Some("(?s).+"), Some(&[("<s>", 256)])).expect("valid config");
    bpe.train(259, &["aaaa"]).expect("training should succeed");
    bpe.train(258, &["bbbb"]).expect("training should succeed");

    assert_eq!(bpe.merged_id(b'a' as u32, b'a' as u32), None);
    assert_eq!(bpe.merged_id(b'b' as u32, b'b' as u32), Some(257));
    assert_eq!(bpe.token_bytes(256), Some(b"<s>".to_vec()));
    assert_eq!(bpe.token_bytes(b'z' as u32), Some(b"z".to_vec()));
    assert_eq!(bpe.encode("<s>bbbb").expect("encoding should succeed"), vec![256, 257, 257]);
}

#[test]
fn regex_errors_convert_into_invalid_split_regex() {
    let err = fancy_regex::Regex::new("(").err().expect("unbalanced group is refused");
    let converted = BPEError::from(err);
    assert!(matches!(converted, BPEError::InvalidSplitRegex(_)));
    assert!(converted.message().starts_with("invalid split regex: "));
}

#[test]
fn train_file_filter_keeps_training_parquet_files_of_the_configuration() {
    let config = "wikitext-103-raw-v1";
    assert!(is_train_file("wikitext-103-raw-v1/train-00000-of-00002.parquet", config, ".parquet", "train-"));
    assert!(!is_train_file("wikitext-103-raw-v1/test-00000-of-00001.parquet", config, ".parquet", "train-"));
    assert!(!is_train_file("wikitext-2-raw-v1/train-00000-of-00001.parquet", config, ".parquet", "train-"));
    assert!(!is_train_file("wikitext-103-raw-v1/train-00000-of-00002.json", config, ".parquet", "train-"));
    assert!(!is_train_file("wikitext-103-raw-v1/sub/validation-train-0.parquet", config, ".parquet", "train-"));
    assert!(is_train_file("wikitext-103-raw-v1train-x.parquet", config, ".parquet", "wikitext"));
    assert!(!is_train_file("", config, ".parquet", "train-"));
}

#[test]
fn retraining_gives_the_same_model_as_a_fresh_training() {
    let docs = ["low lower lowest", "newer newest wider"];
    let mut retrained = BPE::new(Some(r"\S+"), Some(&[("<s>", 260)])).expect("valid config");
    retrained.train(270, &["zzzz yyyy xxxx"]).expect("training should succeed");
    retrained.train(266, &docs).expect("training should succeed");
    let mut fresh = BPE::new(Some(r"\S+"), Some(&[("<s>", 260)])).expect("valid config");
    fresh.train(266, &docs).expect("training should succeed");

    let mut a: Vec<_> = retrained
        .merge_pairs()
        .into_iter()
        .map(|(l, r)| (l, r, retrained.merged_id(l, r)))
        .collect();
    let mut b: Vec<_> = fresh
        .merge_pairs()
        .into_iter()
        .map(|(l, r)| (l, r, fresh.merged_id(l, r)))
        .collect();
    a.sort();
    b.sort();
    assert_eq!(a, b);
    assert_eq!(retrained.vocab_len(), fresh.vocab_len());
    for id in 0..300u32 {
        assert_eq!(retrained.token_bytes(id), fresh.token_bytes(id));
    }
    assert_eq!(retrained.token_bytes(260), Some(b"<s>".to_vec()));
}

#[test]
fn decode_undoes_encode_when_the_pattern_covers_the_text() {
    let mut bpe = BPE::new(Some("(?s).+"), Some(&[("<eos>", 400)])).expect("valid config");
    bpe.train(270, &["the cat sat on the mat<eos>the end", "  tabs\tand\nnewlines  "]).expect("training should succeed");
    for text in ["the cat<eos> sat\n", "", "<eos><eos>", "unseen words: ünïcödé ✓"] {
        let ids = bpe.encode(text).expect("encoding should succeed");
        assert_eq!(bpe.decode(&ids), text.as_bytes().to_vec());
    }
    let mut default = BPE::default();
    default.train(280, &["Hello, world! It's 2024.\n  Indented line."]).expect("training should succeed");
    let text = "Hello again, world!\n\t It's 12345 o'clock.";
    let ids = default.encode(text).expect("encoding should succeed");
    assert_eq!(default.decode(&ids), text.as_bytes().to_vec());
}

#[test]
fn pair_table_keeps_entries_only_for_pairs_that_occur() {
    let mut bpe = BPE::new(Some("(?s).+"), None).expect("valid config");
    bpe.train(257, &["abab"]).expect("training should succeed");
    assert_eq!(bpe.merged_id(b'a' as u32, b'b' as u32), Some(256));
    assert!(bpe.has_pair_stats(256, 256));
    assert_eq!(bpe.pair_count_of(256, 256), 1);
    assert!(!bpe.has_pair_stats(b'a' as u32, b'b' as u32));
    assert!(!bpe.has_pair_stats(b'b' as u32, b'a' as u32));
    assert_eq!(bpe.pair_count_of(b'b' as u32, b'a' as u32), 0);
}

#[test]
fn split_lays_out_fresh_sequences() {
    let bpe = BPE::new(Some(r"\S+"), Some(&[("<pad>", 300), ("<eos>", 301)])).expect("valid config");
    let seqs = bpe.split("x<eos>yz<pad>z").expect("split should succeed");
    let lists: Vec<Vec<u32>> = seqs
        .iter()
        .map(|s| s.iter().into_iter().map(|(_, n)| n.token_id).collect())
        .collect();
    assert_eq!(lists, vec![vec![120], vec![301], vec![121, 122], vec![300], vec![122]]);
    let yz = &seqs[2];
    assert_eq!(yz.head, Some(0));
    assert_eq!(yz.slots.len(), 2);
    assert_eq!(yz.slots[0].map(|n| (n.prev, n.next)), Some((None, Some(1))));
    assert_eq!(yz.slots[1].map(|n| (n.prev, n.next)), Some((Some(0), None)));
    assert_eq!(seqs[1].slots.len(), 1);
    assert_eq!(seqs[1].head, Some(0));
}
