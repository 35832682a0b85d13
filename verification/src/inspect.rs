//! Read-only access to the vocabulary, the learned merges and the training
//! state of a model.

use vstd::prelude::*;
use vstd::std_specs::iter::IteratorSpec;
use crate::bpe::BPE;
use crate::model::{self, pack_pair, unpack_pair};
use crate::training::{merges_view, vocab_view};
use crate::types::TokenId;

verus! {

broadcast use vstd::std_specs::hash::group_hash_axioms;

impl BPE {
    /// The bytes of `token_id`, if it is in the vocabulary.
    pub fn token_bytes(&self, token_id: TokenId) -> (r: Option<Vec<u8>>)
        ensures
            r is Some <==> self.vocab_bytes().contains_key(token_id),
            r matches Some(v) ==> v@ == self.vocab_bytes()[token_id],
    {
        proof {
            self.reveal_model();
        }
        match self.vocab.get(&token_id) {
            Some(bytes) => Some(vstd::slice::slice_to_vec(bytes.as_slice())),
            None => None,
        }
    }

    /// The id that the pair `(left, right)` merges into, if it was learned.
    pub fn merged_id(&self, left: TokenId, right: TokenId) -> (r: Option<TokenId>)
        ensures
            r is Some <==> self.merges().contains_key((left, right)),
            r matches Some(m) ==> m == self.merges()[(left, right)],
    {
        proof {
            self.reveal_model();
        }
        match self.merge_map.get(&pack_pair(left, right)) {
            Some(m) => Some(*m),
            None => None,
        }
    }

    /// Number of vocabulary entries.
    pub fn vocab_len(&self) -> (r: usize)
        ensures
            r == self.vocab_bytes().len(),
    {
        proof {
            self.reveal_model();
            assert(vocab_view(self.vocab@).dom() =~= self.vocab@.dom());
        }
        self.vocab.len()
    }

    /// Whether no merge has been learned.
    pub fn merges_is_empty(&self) -> (r: bool)
        ensures
            r == (self.merges() == Map::<(TokenId, TokenId), TokenId>::empty()),
    {
        proof {
            self.reveal_model();
        }
        let r = self.merge_map.is_empty();
        proof {
            if r {
                assert(merges_view(self.merge_map@) =~= Map::<(TokenId, TokenId), TokenId>::empty());
            } else {
                let k = choose|k: u64| self.merge_map@.contains_key(k);
                model::lemma_key_pair(k);
                assert(merges_view(self.merge_map@).contains_key(model::key_pair(k)));
            }
        }
        r
    }

    /// The learned pairs, in no particular order.
    pub fn merge_pairs(&self) -> (r: Vec<(TokenId, TokenId)>)
        ensures
            r@.to_set() == self.merges().dom(),
    {
        proof {
            self.reveal_model();
        }
        let mut r: Vec<(TokenId, TokenId)> = Vec::new();
        let ghost keys = vstd::std_specs::hash::spec_keys_iter(&self.merge_map).remaining();
        proof {
            assert(keys.unref().to_set() == self.merge_map@.dom());
        }
        for k in it: self.merge_map.keys()
            invariant
                it.seq() == keys,
                r@.len() == it.index(),
                forall|j: int| 0 <= j < r@.len() ==> r@[j] == model::key_pair(*keys[j]),
        {
            r.push(unpack_pair(*k));
        }
        proof {
            assert(r@.len() == keys.len());
            assert forall|p: (TokenId, TokenId)| r@.to_set().contains(p) == merges_view(self.merge_map@).dom().contains(p) by {
                model::lemma_pair_key(p);
                if r@.contains(p) {
                    let j = choose|j: int| 0 <= j < r@.len() && r@[j] == p;
                    model::lemma_key_pair(*keys[j]);
                    assert(keys.unref()[j] == *keys[j]);
                    assert(self.merge_map@.dom().contains(*keys[j]));
                }
                if merges_view(self.merge_map@).dom().contains(p) {
                    assert(keys.unref().to_set().contains(model::pair_key(p)));
                    let j = choose|j: int| 0 <= j < keys.unref().len() && keys.unref()[j] == model::pair_key(p);
                    assert(r@[j] == p);
                }
            }
            assert(r@.to_set() =~= merges_view(self.merge_map@).dom());
        }
        r
    }

    /// Number of distinct chunks kept from the last training.
    pub fn training_chunk_count(&self) -> (r: usize)
        ensures
            r == self.training_weights().len(),
    {
        proof {
            self.reveal_model();
        }
        self.merge_sequences.len()
    }

    /// How often the `index`-th training chunk occurred.
    pub fn training_chunk_frequency(&self, index: usize) -> (r: u32)
        requires
            index < self.training_weights().len(),
        ensures
            r == self.training_weights()[index as int].1,
    {
        proof {
            self.reveal_model();
        }
        self.merge_sequences[index].frequency
    }

    /// The weighted count recorded for `(left, right)`.
    pub fn pair_count_of(&self, left: TokenId, right: TokenId) -> (r: u32)
        ensures
            r == self.pair_count((left, right)),
    {
        proof {
            self.reveal_model();
        }
        match self.token_id_pair_info.get(&pack_pair(left, right)) {
            Some(info) => info.count,
            None => 0,
        }
    }

    /// Whether the pair table holds an entry for `(left, right)`.
    pub fn has_pair_stats(&self, left: TokenId, right: TokenId) -> (r: bool)
        ensures
            r == self.has_pair_entry((left, right)),
    {
        proof {
            self.reveal_model();
        }
        self.token_id_pair_info.contains_key(&pack_pair(left, right))
    }

    /// Whether no pair statistics are recorded.
    pub fn pair_stats_is_empty(&self) -> (r: bool)
        ensures
            r == self.pair_table_empty(),
    {
        proof {
            self.reveal_model();
        }
        let r = self.token_id_pair_info.is_empty();
        proof {
            if r {
                assert(self.token_id_pair_info@.dom() =~= Set::<u64>::empty());
            } else {
                let k = choose|k: u64| self.token_id_pair_info@.contains_key(k);
                assert(self.token_id_pair_info@.dom().contains(k));
            }
        }
        r
    }

    /// Whether no frequency bucket exists.
    pub fn frequency_buckets_is_empty(&self) -> (r: bool)
        ensures
            r == self.buckets_empty(),
    {
        proof {
            self.reveal_model();
        }
        let r = self.count_to_token_id_pairs.is_empty();
        proof {
            if r {
                assert(self.count_to_token_id_pairs@.dom() =~= Set::<u32>::empty());
            } else {
                let k = choose|k: u32| self.count_to_token_id_pairs@.contains_key(k);
                assert(self.count_to_token_id_pairs@.dom().contains(k));
            }
        }
        r
    }
}

} // verus!
