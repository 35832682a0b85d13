use fast_bpe_rs::bpe::BPE;
use fast_bpe_rs::error::BPEError;
use fast_bpe_rs::types::{TokenId, BASE_VOCAB_SIZE};

fn model(split_pattern: &str) -> BPE {
    BPE::new(Some(split_pattern), None).expect("valid regex should construct")
}

fn model_with_specials(split_pattern: &str, specials: &[(&str, TokenId)]) -> BPE {
    BPE::new(Some(split_pattern), Some(specials)).expect("valid config should construct")
}

fn encode(bpe: &BPE, text: &str) -> Vec<TokenId> {
    bpe.encode(text).expect("encoding should succeed")
}

fn tokens_per_merge_sequence(bpe: &BPE, text: &str) -> Vec<Vec<TokenId>> {
    bpe.split(text)
        .expect("split should succeed")
        .iter()
        .map(|merge_sequence| {
            merge_sequence
                .iter()
                .into_iter()
                .map(|(_, node)| node.token_id)
                .collect()
        })
        .collect()
}

#[test]
fn bpe_train_learns_most_frequent_pair_and_roundtrips() {
    let mut bpe = model("(?s).+");
    bpe.train(257, &["abababa"]).expect("training should succeed");

    assert_eq!(bpe.token_bytes(256), Some(b"ab".to_vec()));
    assert_eq!(bpe.merged_id(b'a' as u32, b'b' as u32), Some(256));

    let encoded = encode(&bpe, "abababa");
    assert_eq!(encoded, vec![256, 256, 256, b'a' as u32]);
    assert_eq!(bpe.decode(&encoded), b"abababa");
}

#[test]
fn train_aggregates_identical_chunks_and_weights_pair_counts() {
    let mut bpe = model("\\S+");
    bpe.train(258, &["the the", "the"]).expect("training should succeed");

    assert_eq!(bpe.training_chunk_count(), 1);
    assert_eq!(bpe.training_chunk_frequency(0), 3);
    assert_eq!(bpe.token_bytes(256), Some(b"he".to_vec()));
    assert_eq!(bpe.token_bytes(257), Some(b"the".to_vec()));
    assert!(!bpe.has_pair_stats(b't' as u32, b'h' as u32));
    assert_eq!(encode(&bpe, "the the"), vec![257, 257]);
}

#[test]
fn split_for_training_bytes_uses_special_tokens_as_boundaries() {
    let bpe = model_with_specials("(?s).+", &[("<|eot|>", BASE_VOCAB_SIZE)]);
    let chunks = bpe.training_chunks("left<|eot|>right").expect("split should succeed");
    assert_eq!(chunks, vec![b"left".to_vec(), b"right".to_vec()]);
}

#[test]
fn bpe_training_handles_overlapping_pairs_without_corrupting_state() {
    let mut bpe = model("(?s).+");
    bpe.train(258, &["aaaa"]).expect("training should succeed");

    assert_eq!(bpe.token_bytes(256), Some(b"aa".to_vec()));
    assert_eq!(bpe.token_bytes(257), Some(b"aaaa".to_vec()));
    assert_eq!(encode(&bpe, "aaaa"), vec![257]);
    assert_eq!(bpe.decode(&[257]), b"aaaa");
}

#[test]
fn bpe_split_pattern_keeps_merges_scoped_to_each_match() {
    let mut bpe = model("\\S+");
    bpe.train(257, &["go go", "go stop"]).expect("training should succeed");

    assert_eq!(bpe.token_bytes(256), Some(b"go".to_vec()));
    assert_eq!(
        encode(&bpe, "go stop go"),
        vec![256, b's' as u32, b't' as u32, b'o' as u32, b'p' as u32, 256]
    );
    assert_eq!(
        bpe.decode(&[256, b's' as u32, b't' as u32, b'o' as u32, b'p' as u32, 256]),
        b"gostopgo"
    );
}

#[test]
fn training_with_empty_input_keeps_base_state() {
    let mut bpe = model("(?s).+");
    bpe.train(300, &[]).expect("training should succeed");

    assert!(encode(&bpe, "").is_empty());
    assert!(bpe.decode(&[]).is_empty());
    assert_eq!(bpe.decode(&[999_999]), Vec::<u8>::new());
    assert!(bpe.merges_is_empty());
    assert_eq!(bpe.training_chunk_count(), 0);
    assert!(bpe.frequency_buckets_is_empty());
    assert!(bpe.pair_stats_is_empty());
}

#[test]
fn bpe_requesting_base_vocab_size_keeps_byte_level_encoding() {
    let mut bpe = model("(?s).+");
    bpe.train(BASE_VOCAB_SIZE, &["banana"]).expect("training should succeed");

    let encoded = encode(&bpe, "banana");
    assert_eq!(
        encoded,
        b"banana".iter().map(|&byte| TokenId::from(byte)).collect::<Vec<_>>()
    );
    assert_eq!(bpe.decode(&encoded), b"banana");
    assert!(bpe.merges_is_empty());
}

#[test]
fn bpe_retraining_replaces_previous_merge_state() {
    let mut bpe = model("(?s).+");
    bpe.train(257, &["aaaa"]).expect("training should succeed");
    let first_encoding = encode(&bpe, "aaaa");
    assert_eq!(first_encoding, vec![256, 256]);

    bpe.train(257, &["bbbb"]).expect("training should succeed");

    assert_eq!(bpe.token_bytes(256), Some(b"bb".to_vec()));
    assert_eq!(encode(&bpe, "bbbb"), vec![256, 256]);
    assert_eq!(encode(&bpe, "aaaa"), vec![b'a' as u32; 4]);
    assert_eq!(bpe.vocab_len() as u32, BASE_VOCAB_SIZE + 1);
}

#[test]
fn encode_prefers_lowest_merge_id_when_multiple_pairs_match() {
    let mut bpe = model("(?s).+");
    bpe.train(259, &["abba"]).expect("training should succeed");

    assert_eq!(bpe.merged_id(b'a' as u32, b'b' as u32), Some(256));
    assert_eq!(bpe.merged_id(b'b' as u32, b'a' as u32), Some(257));
    assert_eq!(bpe.merged_id(256, 257), Some(258));
    assert_eq!(encode(&bpe, "abba"), vec![258]);
}

#[test]
fn try_new_with_special_tokens_rejects_ids_in_base_vocab() {
    let err = BPE::new(Some("(?s).+"), Some(&[("<pad>", 42)]))
        .err()
        .expect("special token ids below the byte vocabulary should be rejected");

    assert!(matches!(
        err,
        BPEError::SpecialTokenIdOverlapsBaseVocab { token_id: 42, .. }
    ));
    assert!(err.message().contains("must be >= 256"));
}

#[test]
fn try_new_with_special_tokens_rejects_duplicate_ids() {
    let err = BPE::new(Some("(?s).+"), Some(&[("<pad>", 512), ("<eos>", 512)]))
        .err()
        .expect("duplicate special token ids should be rejected");

    assert!(matches!(err, BPEError::DuplicateSpecialTokenId { token_id: 512 }));
    assert!(err.message().contains("assigned more than once"));
}

#[test]
fn bpe_try_new_returns_error_for_invalid_regex() {
    assert!(BPE::new(Some("("), None).is_err());
}

#[test]
fn training_split_uses_special_tokens_as_boundaries_without_emitting_them() {
    let bpe = model_with_specials(r"\S+", &[("<pad>", 300), ("<eos>", 301)]);
    assert_eq!(
        bpe.training_chunks("hi<pad><eos>there").expect("split should succeed"),
        vec![b"hi".to_vec(), b"there".to_vec()]
    );
}

#[test]
fn special_tokens_keep_custom_ids_and_roundtrip_without_splitting() {
    let bpe = model_with_specials("\\S+", &[("<pad>", 1024), ("<eos>", 2048)]);

    assert_eq!(
        encode(&bpe, "hi<pad><eos>there"),
        vec![
            b'h' as u32,
            b'i' as u32,
            1024,
            2048,
            b't' as u32,
            b'h' as u32,
            b'e' as u32,
            b'r' as u32,
            b'e' as u32,
        ]
    );
    assert_eq!(bpe.decode(&[1024, 2048]), b"<pad><eos>");
}

#[test]
fn special_tokens_do_not_merge_with_neighbors_or_each_other() {
    let mut bpe = model_with_specials("(?s).+", &[("<pad>", 300), ("<eos>", 301)]);
    bpe.train(305, &["a<pad>a<pad>", "<pad><eos><pad>"]).expect("training should succeed");

    assert!(!bpe.merge_pairs().iter().any(|token_id_pair| {
        token_id_pair.0 == 300
            || token_id_pair.1 == 300
            || token_id_pair.0 == 301
            || token_id_pair.1 == 301
    }));
    assert_eq!(encode(&bpe, "a<pad><eos>a"), vec![b'a' as u32, 300, 301, b'a' as u32]);
}

#[test]
fn split_includes_special_tokens_as_single_node_merge_sequences() {
    let bpe = model_with_specials(r"\S+", &[("<pad>", 300), ("<eos>", 301)]);

    assert_eq!(
        tokens_per_merge_sequence(&bpe, "hi<pad>there<eos>"),
        vec![
            vec![b'h' as u32, b'i' as u32],
            vec![300],
            vec![b't' as u32, b'h' as u32, b'e' as u32, b'r' as u32, b'e' as u32],
            vec![301]
        ]
    );
}

#[test]
fn build_special_token_pattern_prefers_longer_tokens_before_prefixes() {
    let bpe = model_with_specials(r"\S+", &[("<e>", 400), ("<eos>", 401)]);

    assert_eq!(encode(&bpe, "<eos><e>"), vec![401, 400]);
}

#[test]
fn split_preserves_document_order_across_regular_and_special_segments() {
    let bpe = model_with_specials(r"\S+", &[("<pad>", 300), ("<eos>", 301)]);

    assert_eq!(
        tokens_per_merge_sequence(&bpe, "x<eos>y<pad>z"),
        vec![
            vec![b'x' as u32],
            vec![301],
            vec![b'y' as u32],
            vec![300],
            vec![b'z' as u32]
        ]
    );
}

#[test]
fn train_skips_reserved_special_token_ids_when_assigning_merges() {
    let mut bpe = model_with_specials("(?s).+", &[("<pad>", 256), ("<eos>", 257)]);
    bpe.train(260, &["abab"]).expect("training should succeed");

    assert_eq!(bpe.merged_id(b'a' as u32, b'b' as u32), Some(258));
    assert_eq!(bpe.token_bytes(256), Some(b"<pad>".to_vec()));
    assert_eq!(bpe.token_bytes(257), Some(b"<eos>".to_vec()));
    assert_eq!(encode(&bpe, "<pad>ab<eos>"), vec![256, 258, 257]);
}

#[test]
fn train_stops_when_no_mergeable_pairs_exist() {
    let mut bpe = model("(?s).+");
    bpe.train(300, &["a", "b", "c"]).expect("training should succeed");

    assert!(bpe.merges_is_empty());
    assert_eq!(bpe.vocab_len() as u32, BASE_VOCAB_SIZE);
    assert_eq!(encode(&bpe, "abc"), vec![b'a' as u32, b'b' as u32, b'c' as u32]);
}

#[test]
fn encode_returns_only_special_tokens_when_input_is_only_specials() {
    let bpe = model_with_specials(r"\S+", &[("<pad>", 600), ("<eos>", 601)]);

    assert_eq!(encode(&bpe, "<pad><eos><pad>"), vec![600, 601, 600]);
}

#[test]
fn train_deduplicates_chunks_across_split_batches() {
    let mut bpe = model("(?s).+");
    let doc_count = 1_017;
    let docs = vec!["xy"; doc_count];

    bpe.train(257, &docs).expect("training should succeed");

    assert_eq!(bpe.training_chunk_count(), 1);
    assert_eq!(bpe.training_chunk_frequency(0) as usize, doc_count);
    assert_eq!(bpe.token_bytes(256), Some(b"xy".to_vec()));
}

#[test]
fn reset_training_state_preserves_special_tokens_between_retrains() {
    let mut bpe = model_with_specials("(?s).+", &[("<pad>", 700)]);
    bpe.train(258, &["abab"]).expect("training should succeed");
    assert!(bpe.token_bytes(700).is_some());

    bpe.train(258, &["cdcd"]).expect("training should succeed");

    assert_eq!(bpe.token_bytes(700), Some(b"<pad>".to_vec()));
    assert_eq!(bpe.merged_id(b'c' as u32, b'd' as u32), Some(256));
    assert_eq!(encode(&bpe, "<pad>cd"), vec![700, 256]);
}

#[test]
fn train_uses_stable_pair_order_when_frequencies_tie() {
    let mut bpe = model("\\S+");
    bpe.train(258, &["ab ac"]).expect("training should succeed");

    assert_eq!(bpe.merged_id(b'a' as u32, b'b' as u32), Some(256));
    assert_eq!(bpe.merged_id(b'a' as u32, b'c' as u32), Some(257));
    assert_eq!(encode(&bpe, "ab ac"), vec![256, 257]);
}

#[test]
fn encode_of_empty_string_is_empty_even_with_special_tokens_configured() {
    let bpe = model_with_specials(r"\S+", &[("<pad>", 900)]);

    assert!(encode(&bpe, "").is_empty());
    assert!(bpe.split("").expect("split should succeed").is_empty());
}

#[test]
fn tests_train_learns_most_frequent_pair_and_roundtrips() {
    let mut bpe = model("(?s).+");
    bpe.train(257, &["abababa"]).expect("training should succeed");

    assert_eq!(bpe.token_bytes(256), Some(b"ab".to_vec()));
    assert_eq!(bpe.merged_id(b'a' as u32, b'b' as u32), Some(256));

    let encoded = encode(&bpe, "abababa");
    assert_eq!(encoded, vec![256, 256, 256, b'a' as u32]);
    assert_eq!(bpe.decode(&encoded), b"abababa");
}

#[test]
fn tests_training_handles_overlapping_pairs_without_corrupting_state() {
    let mut bpe = model("(?s).+");
    bpe.train(258, &["aaaa"]).expect("training should succeed");

    assert_eq!(bpe.token_bytes(256), Some(b"aa".to_vec()));
    assert_eq!(bpe.token_bytes(257), Some(b"aaaa".to_vec()));
    assert_eq!(encode(&bpe, "aaaa"), vec![257]);
    assert_eq!(bpe.decode(&[257]), b"aaaa");
}

#[test]
fn tests_split_pattern_keeps_merges_scoped_to_each_match() {
    let mut bpe = model("\\S+");
    bpe.train(257, &["go go", "go stop"]).expect("training should succeed");

    assert_eq!(bpe.token_bytes(256), Some(b"go".to_vec()));
    assert_eq!(
        encode(&bpe, "go stop go"),
        vec![256, b's' as u32, b't' as u32, b'o' as u32, b'p' as u32, 256]
    );
    assert_eq!(
        bpe.decode(&[256, b's' as u32, b't' as u32, b'o' as u32, b'p' as u32, 256]),
        b"gostopgo"
    );
}

#[test]
fn empty_inputs_and_unknown_token_ids_are_handled() {
    let mut bpe = model("(?s).+");
    bpe.train(300, &[]).expect("training should succeed");

    assert!(encode(&bpe, "").is_empty());
    assert!(bpe.decode(&[]).is_empty());
    assert_eq!(bpe.decode(&[999_999]), Vec::<u8>::new());
    assert!(bpe.merges_is_empty());
}

#[test]
fn tests_requesting_base_vocab_size_keeps_byte_level_encoding() {
    let mut bpe = model("(?s).+");
    bpe.train(BASE_VOCAB_SIZE, &["banana"]).expect("training should succeed");

    let encoded = encode(&bpe, "banana");
    assert_eq!(
        encoded,
        b"banana".iter().map(|&byte| TokenId::from(byte)).collect::<Vec<_>>()
    );
    assert_eq!(bpe.decode(&encoded), b"banana");
    assert!(bpe.merges_is_empty());
}

#[test]
fn tests_retraining_replaces_previous_merge_state() {
    let mut bpe = model("(?s).+");
    bpe.train(257, &["aaaa"]).expect("training should succeed");
    let first_encoding = encode(&bpe, "aaaa");
    assert_eq!(first_encoding, vec![256, 256]);

    bpe.train(257, &["bbbb"]).expect("training should succeed");

    assert_eq!(bpe.token_bytes(256), Some(b"bb".to_vec()));
    assert_eq!(encode(&bpe, "bbbb"), vec![256, 256]);
    assert_eq!(encode(&bpe, "aaaa"), vec![b'a' as u32; 4]);
}

#[test]
fn tests_try_new_returns_error_for_invalid_regex() {
    assert!(BPE::new(Some("("), None).is_err());
}
