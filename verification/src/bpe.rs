//! The byte pair encoding model: configuration, training entry point,
//! encoding and decoding.

use vstd::prelude::*;
use std::collections::{HashMap, HashSet};
use crate::pattern::regex_compiles;
use crate::split::specials_view;
use crate::training::{info_count, merges_sound, merges_view, seqs_view, vocab_view, TokenIdPairInfo, WeightedMergeSequence};
use crate::types::{TokenId, BASE_VOCAB_SIZE};
use vstd::utf8::encode_utf8;

verus! {

/// Byte Pair Encoding model with optional special-token support.
pub struct BPE {
    /// Source pattern used to split documents into chunks.
    pub(crate) split_pattern_source: String,
    /// Alternation of the escaped special tokens, longest first.
    pub(crate) special_split_pattern_source: Option<String>,
    /// Literal special-token text with its externally visible token id.
    pub(crate) special_tokens: Vec<(String, TokenId)>,
    /// Vocabulary entries materialized as raw bytes.
    pub(crate) vocab: HashMap<TokenId, Vec<u8>>,
    /// Learned merge rules keyed by the packed `(left, right)` pair.
    pub(crate) merge_map: HashMap<u64, TokenId>,
    /// Unique training chunks with their corpus multiplicity.
    pub(crate) merge_sequences: Vec<WeightedMergeSequence>,
    /// Frequency -> packed pairs currently at that frequency.
    pub(crate) count_to_token_id_pairs: HashMap<u32, HashSet<u64>>,
    /// Largest non-empty frequency bucket.
    pub(crate) max_token_id_pair_count: u32,
    /// Packed pair -> its weighted count and the locations of its left nodes.
    pub(crate) token_id_pair_info: HashMap<u64, TokenIdPairInfo>,
}

/// The vocabulary maps every byte id to that byte, every special token's id
/// (above the byte range) to its text, and every merged id to the bytes of
/// its two parts.
pub open spec fn vocab_sound(v: Map<TokenId, Seq<u8>>, mm: Map<(TokenId, TokenId), TokenId>, specials: Seq<(Seq<char>, TokenId)>) -> bool {
    &&& forall|b: TokenId| b < BASE_VOCAB_SIZE ==> #[trigger] v.contains_key(b) && v[b] == seq![b as u8]
    &&& forall|i: int| 0 <= i < specials.len() ==> BASE_VOCAB_SIZE <= (#[trigger] specials[i]).1
            && v.contains_key(specials[i].1) && v[specials[i].1] == encode_utf8(specials[i].0)
    &&& merges_sound(v, mm)
}

impl BPE {
    /// The split pattern.
    pub closed spec fn split_pattern(self) -> Seq<char> {
        self.split_pattern_source@
    }

    /// The alternation of the special tokens, if any are configured.
    pub closed spec fn special_pattern(self) -> Option<Seq<char>> {
        match self.special_split_pattern_source {
            Some(p) => Some(p@),
            None => None,
        }
    }

    /// The configured special tokens with their ids.
    pub closed spec fn specials(self) -> Seq<(Seq<char>, TokenId)> {
        specials_view(self.special_tokens@)
    }

    /// The vocabulary: bytes of every known token id.
    pub closed spec fn vocab_bytes(self) -> Map<TokenId, Seq<u8>> {
        vocab_view(self.vocab@)
    }

    /// The learned merge rules.
    pub closed spec fn merges(self) -> Map<(TokenId, TokenId), TokenId> {
        merges_view(self.merge_map@)
    }

    /// The chunks kept from the last training, as weighted token sequences.
    pub closed spec fn training_weights(self) -> crate::model::Weighted {
        seqs_view(self.merge_sequences@)
    }

    /// The weighted count recorded for pair `p` (zero when absent).
    pub closed spec fn pair_count(self, p: (TokenId, TokenId)) -> int {
        info_count(self.token_id_pair_info@, crate::model::pair_key(p))
    }

    /// The pair table holds an entry for `p`.
    pub closed spec fn has_pair_entry(self, p: (TokenId, TokenId)) -> bool {
        self.token_id_pair_info@.contains_key(crate::model::pair_key(p))
    }

    /// No pair is recorded.
    pub closed spec fn pair_table_empty(self) -> bool {
        self.token_id_pair_info@.dom() == Set::<u64>::empty()
    }

    /// No frequency bucket exists.
    pub closed spec fn buckets_empty(self) -> bool {
        self.count_to_token_id_pairs@.dom() == Set::<u32>::empty()
    }

    /// Well-formedness: both patterns compile and the vocabulary is sound.
    pub closed spec fn wf(self) -> bool {
        &&& regex_compiles(self.split_pattern_source@)
        &&& self.special_split_pattern_source matches Some(p) ==> regex_compiles(p@)
        &&& vocab_sound(vocab_view(self.vocab@), merges_view(self.merge_map@), specials_view(self.special_tokens@))
    }

    /// Unfolds the views of the model for the modules that implement it.
    pub(crate) proof fn reveal_model(self)
        ensures
            self.split_pattern() == self.split_pattern_source@,
            self.special_pattern() == (match self.special_split_pattern_source {
                Some(p) => Some(p@),
                None => None::<Seq<char>>,
            }),
            self.specials() == specials_view(self.special_tokens@),
            self.vocab_bytes() == vocab_view(self.vocab@),
            self.merges() == merges_view(self.merge_map@),
            self.training_weights() == seqs_view(self.merge_sequences@),
            forall|p: (TokenId, TokenId)| #[trigger] self.pair_count(p) == info_count(self.token_id_pair_info@, crate::model::pair_key(p)),
            forall|p: (TokenId, TokenId)| #[trigger] self.has_pair_entry(p) == self.token_id_pair_info@.contains_key(crate::model::pair_key(p)),
            self.pair_table_empty() == (self.token_id_pair_info@.dom() == Set::<u64>::empty()),
            self.buckets_empty() == (self.count_to_token_id_pairs@.dom() == Set::<u32>::empty()),
            self.wf() == (regex_compiles(self.split_pattern_source@)
                && (self.special_split_pattern_source matches Some(p) ==> regex_compiles(p@))
                && vocab_sound(vocab_view(self.vocab@), merges_view(self.merge_map@), specials_view(self.special_tokens@))),
    {
    }
}

} // verus!
