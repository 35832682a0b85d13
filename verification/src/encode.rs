//! Encoding text with the learned merges and decoding token ids to bytes.

use vstd::prelude::*;
use crate::bpe::BPE;
use crate::error::BPEError;
use crate::merge_sequence::MergeSequence;
use crate::model::{self, pack_pair};
use crate::split::{doc_pieces, piece_sequences, pieces_fit};
use crate::training::merges_view;
use crate::types::{MergeNodeSlot, TokenId};

verus! {

broadcast use vstd::std_specs::hash::group_hash_axioms;

/// The encoding of every sequence, one after the other.
pub open spec fn encode_sequences(mm: Map<(TokenId, TokenId), TokenId>, seqs: Seq<Seq<TokenId>>) -> Seq<TokenId>
    decreases seqs.len(),
{
    if seqs.len() == 0 {
        seq![]
    } else {
        encode_sequences(mm, seqs.drop_last()) + model::encode_chunk(mm, seqs.last())
    }
}

/// The bytes of the known ids among `ids`, one after the other.
pub open spec fn decode_ids(vocab: Map<TokenId, Seq<u8>>, ids: Seq<TokenId>) -> Seq<u8>
    decreases ids.len(),
{
    if ids.len() == 0 {
        seq![]
    } else {
        decode_ids(vocab, ids.drop_last()) + if vocab.contains_key(ids.last()) { vocab[ids.last()] } else { seq![] }
    }
}

/// The encoding of a document: its merge sequences, each merged with the
/// learned rules.
pub open spec fn encode_doc(
    mm: Map<(TokenId, TokenId), TokenId>,
    split: Seq<char>,
    special: Option<Seq<char>>,
    specials: Seq<(Seq<char>, TokenId)>,
    text: Seq<char>,
) -> Option<Seq<TokenId>> {
    match doc_pieces(split, special, text) {
        Some(ps) => if pieces_fit(ps) {
            Some(encode_sequences(mm, piece_sequences(specials, ps)))
        } else {
            None
        },
        None => None,
    }
}

impl BPE {
    /// Applies the learned merges to one merge sequence: while some adjacent
    /// pair has a merge, splice the one with the smallest merged id (leftmost
    /// among equals).
    #[verifier::spinoff_prover]
    #[verifier::rlimit(40)]
    fn encode_merge_sequence(&self, ms: &mut MergeSequence)
        requires
            old(ms).wf(),
        ensures
            final(ms).wf(),
            final(ms)@ == model::encode_chunk(self.merges(), old(ms)@),
    {
        proof {
            self.reveal_model();
        }
        let ghost mm = self.merges();
        let ghost goal = model::encode_chunk(mm, ms@);
        let mut done = false;
        while !done
            invariant
                ms.wf(),
                mm == self.merges(),
                mm == merges_view(self.merge_map@),
                model::encode_chunk(mm, ms@) == goal,
                done ==> ms@ == goal,
            decreases ms@.len(), if done { 0int } else { 1int },
        {
            let nodes = ms.iter();
            let ghost c = ms@;
            let ghost o = ms.order@;
            let mut best: Option<(TokenId, MergeNodeSlot, MergeNodeSlot)> = None;
            let ghost mut best_pos: int = 0;
            let mut j: usize = 1;
            while j < nodes.len()
                invariant
                    1 <= j,
                    j <= nodes@.len() || nodes@.len() == 0,
                    ms.wf(),
                    c == ms@,
                    o == ms.order@,
                    mm == merges_view(self.merge_map@),
                    nodes@.len() == o.len(),
                    forall|x: int| 0 <= x < nodes@.len() ==> (#[trigger] nodes@[x]) == (o[x], ms.node(o[x] as int)),
                    best is None ==> forall|i: int| 0 <= i < j - 1 ==> !model::mergeable(mm, c, i),
                    best matches Some(b) ==> {
                        &&& 0 <= best_pos < j - 1
                        &&& model::mergeable(mm, c, best_pos)
                        &&& b.0 == mm[model::pair_of(c, best_pos)]
                        &&& b.1 == o[best_pos]
                        &&& b.2 == o[best_pos + 1]
                        &&& forall|i: int| 0 <= i < j - 1 && #[trigger] model::mergeable(mm, c, i) ==>
                                b.0 < mm[model::pair_of(c, i)] || (b.0 == mm[model::pair_of(c, i)] && best_pos <= i)
                    },
                decreases nodes@.len() - j,
            {
                let (left_slot, left_node) = nodes[j - 1];
                let (right_slot, right_node) = nodes[j];
                let key = pack_pair(left_node.token_id, right_node.token_id);
                let ghost p = (left_node.token_id, right_node.token_id);
                proof {
                    ms.lemma_pair_at_position(j as int - 1);
                    assert(c[j - 1] == left_node.token_id);
                    assert(c[j as int] == right_node.token_id);
                    assert(model::pair_of(c, j - 1) == p);
                    model::lemma_pair_key(p);
                }
                match self.merge_map.get(&key) {
                    Some(merge_id) => {
                        let better = match best {
                            None => true,
                            Some(b) => *merge_id < b.0,
                        };
                        if better {
                            best = Some((*merge_id, left_slot, right_slot));
                            proof {
                                best_pos = j - 1;
                            }
                        }
                    },
                    None => {},
                }
                j = j + 1;
            }
            match best {
                None => {
                    proof {
                        assert forall|i: int| !model::is_lowest_merge(mm, c, i) by {
                            if model::is_lowest_merge(mm, c, i) {
                                assert(model::mergeable(mm, c, i));
                            }
                        }
                    }
                    done = true;
                },
                Some(b) => {
                    proof {
                        assert(model::is_lowest_merge(mm, c, best_pos));
                        assert forall|i: int| model::is_lowest_merge(mm, c, i) implies i == best_pos by {
                            model::lemma_lowest_merge_unique(mm, c, i, best_pos);
                        }
                        ms.lemma_position(best_pos);
                        ms.lemma_pair_at_position(best_pos);
                        assert(ms.node(b.1 as int).next == Some(b.2));
                    }
                    ms.splice(b.1, b.2, b.0);
                    proof {
                        assert(ms@ == c.update(best_pos, mm[model::pair_of(c, best_pos)]).remove(best_pos + 1));
                    }
                },
            }
        }
    }
}

impl BPE {
    /// Encodes text: splits it into merge sequences and repeatedly applies, in
    /// each, the available merge with the lowest token id.
    ///
    /// Priority follows training chronology because merge ids are assigned in
    /// learning order (a lower id was learned earlier).
    pub fn encode(&self, doc: &str) -> (r: Result<Vec<TokenId>, BPEError>)
        requires
            self.wf(),
        ensures
            r is Ok <==> encode_doc(self.merges(), self.split_pattern(), self.special_pattern(), self.specials(), doc@) is Some,
            r matches Ok(v) ==> encode_doc(self.merges(), self.split_pattern(), self.special_pattern(), self.specials(), doc@)
                == Some(v@),
            r matches Err(e) ==> (e is CountOverflow <==> doc_pieces(self.split_pattern(), self.special_pattern(), doc@) is Some),
            r matches Err(e) ==> e is CountOverflow || e is RegexEvaluation,
    {
        let mut seqs = self.split(doc)?;
        let ghost ps = doc_pieces(self.split_pattern(), self.special_pattern(), doc@).unwrap();
        let ghost expected = piece_sequences(self.specials(), ps);
        let mut encoded: Vec<TokenId> = Vec::new();
        let mut i: usize = 0;
        proof {
            assert(expected.take(0) =~= Seq::<Seq<TokenId>>::empty());
        }
        while i < seqs.len()
            invariant
                i <= seqs@.len(),
                seqs@.len() == expected.len(),
                forall|x: int| 0 <= x < seqs@.len() ==> (#[trigger] seqs@[x]).wf(),
                forall|x: int| i <= x < seqs@.len() ==> (#[trigger] seqs@[x])@ == expected[x],
                encoded@ == encode_sequences(self.merges(), expected.take(i as int)),
            decreases seqs@.len() - i,
        {
            let ghost before = seqs@;
            self.encode_merge_sequence(&mut seqs[i]);
            let nodes = seqs[i].iter();
            let ghost chunk = seqs@[i as int]@;
            let ghost start = encoded@;
            let mut j: usize = 0;
            while j < nodes.len()
                invariant
                    j <= nodes@.len(),
                    nodes@.len() == chunk.len(),
                    chunk == seqs@[i as int]@,
                    seqs@[i as int].wf(),
                    forall|x: int| 0 <= x < nodes@.len() ==> (#[trigger] nodes@[x]) == (seqs@[i as int].order@[x],
                        seqs@[i as int].node(seqs@[i as int].order@[x] as int)),
                    encoded@ == start + chunk.take(j as int),
                decreases nodes@.len() - j,
            {
                let (_, node) = nodes[j];
                encoded.push(node.token_id);
                proof {
                    assert(chunk.take(j as int + 1) =~= chunk.take(j as int).push(chunk[j as int]));
                }
                j = j + 1;
            }
            proof {
                assert(chunk.take(nodes@.len() as int) =~= chunk);
                assert(expected.take(i as int + 1).drop_last() =~= expected.take(i as int));
                assert(expected.take(i as int + 1).last() == expected[i as int]);
                assert forall|x: int| 0 <= x < seqs@.len() implies (#[trigger] seqs@[x]).wf() by {
                    if x != i {
                        assert(seqs@[x] == before[x]);
                    }
                }
                assert forall|x: int| i + 1 <= x < seqs@.len() implies (#[trigger] seqs@[x])@ == expected[x] by {
                    assert(seqs@[x] == before[x]);
                }
            }
            i = i + 1;
        }
        proof {
            assert(expected.take(seqs@.len() as int) =~= expected);
        }
        Ok(encoded)
    }

    /// Decodes token ids back into bytes, skipping unknown ids.
    pub fn decode(&self, token_ids: &[TokenId]) -> (r: Vec<u8>)
        ensures
            r@ == decode_ids(self.vocab_bytes(), token_ids@),
    {
        proof {
            self.reveal_model();
        }
        let mut out: Vec<u8> = Vec::new();
        let mut i: usize = 0;
        while i < token_ids.len()
            invariant
                i <= token_ids@.len(),
                self.vocab_bytes() == crate::training::vocab_view(self.vocab@),
                out@ == decode_ids(self.vocab_bytes(), token_ids@.take(i as int)),
            decreases token_ids@.len() - i,
        {
            let id = token_ids[i];
            let ghost before = out@;
            match self.vocab.get(&id) {
                Some(bytes) => {
                    out.extend_from_slice(bytes.as_slice());
                },
                None => {},
            }
            proof {
                let t = token_ids@.take(i as int + 1);
                assert(t.drop_last() =~= token_ids@.take(i as int));
                assert(t.last() == id);
            }
            i = i + 1;
        }
        proof {
            assert(token_ids@.take(token_ids@.len() as int) =~= token_ids@);
        }
        out
    }
}

} // verus!
