//! The training corpus: chunks of every document, counted with a `hashbrown`
//! map, and turned into one weighted merge sequence per distinct chunk.

use vstd::prelude::*;
use vstd::utf8::encode_utf8;
use vstd::std_specs::iter::IteratorSpec;
use crate::bpe::BPE;
use crate::error::BPEError;
use crate::merge_sequence::MergeSequence;
use crate::model;
use crate::split::{bytes_tokens, doc_pieces, piece_chunks, pieces_view};
use crate::training::{merges_view, seqs_view, vocab_view, WeightedMergeSequence};
use crate::types::{TokenId, BASE_VOCAB_SIZE};
use crate::split::specials_view;
use std::collections::HashSet;

verus! {

broadcast use vstd::seq_lib::group_to_multiset_ensures, vstd::multiset::group_multiset_axioms,
    vstd::std_specs::hash::group_hash_axioms;

/// Chunk counts held in a `hashbrown` map with the `ahash` hasher.
#[verifier::external_body]
pub struct ChunkCounts {
    counts: hashbrown::HashMap<Vec<u8>, u32, ahash::RandomState>,
}

/// What a [`ChunkCounts`] holds: each chunk's count.
pub uninterp spec fn chunk_counts(c: ChunkCounts) -> Map<Seq<u8>, u32>;

impl ChunkCounts {
    /// Creates an empty `hashbrown::HashMap` with a fresh `ahash::RandomState`.
    ///
    /// Trusted: a new map holds nothing.
    #[verifier::external_body]
    pub(crate) fn new() -> (r: ChunkCounts)
        ensures
            chunk_counts(r).dom() == Set::<Seq<u8>>::empty(),
    {
        ChunkCounts { counts: hashbrown::HashMap::default() }
    }

    /// Looks `chunk` up with `hashbrown::HashMap::get`.
    ///
    /// Trusted: the count stored for the chunk, if any.
    #[verifier::external_body]
    pub(crate) fn get(&self, chunk: &[u8]) -> (r: Option<u32>)
        ensures
            r == chunk_counts(*self).get(chunk@),
    {
        self.counts.get(chunk).copied()
    }

    /// Stores `count` for `chunk` with `hashbrown::HashMap::insert`.
    ///
    /// Trusted: the chunk's count becomes `count`, the others stay.
    #[verifier::external_body]
    pub(crate) fn set(&mut self, chunk: &[u8], count: u32)
        ensures
            chunk_counts(*final(self)) == chunk_counts(*old(self)).insert(chunk@, count),
    {
        self.counts.insert(chunk.to_vec(), count);
    }

    /// Moves the entries out with `hashbrown::HashMap::into_iter`.
    ///
    /// Trusted: every entry comes out exactly once, in an order that the
    /// hasher's random seed decides (so the order is left unsaid).
    #[verifier::external_body]
    pub(crate) fn into_entries(self) -> (r: Vec<(Vec<u8>, u32)>)
        ensures
            forall|i: int| 0 <= i < r@.len() ==> #[trigger] chunk_counts(self).get(r@[i].0@) == Some(r@[i].1),
            forall|i: int, j: int| 0 <= i < j < r@.len() ==> (#[trigger] r@[i]).0@ != (#[trigger] r@[j]).0@,
            forall|b: Seq<u8>| #[trigger] chunk_counts(self).contains_key(b) ==> exists|i: int| 0 <= i < r@.len() && r@[i].0@ == b,
    {
        self.counts.into_iter().collect()
    }
}

/// The chunks of all documents in order, or `None` when a regex search fails.
pub open spec fn docs_chunks(split: Seq<char>, special: Option<Seq<char>>, docs: Seq<Seq<char>>) -> Option<Seq<Seq<u8>>>
    decreases docs.len(),
{
    if docs.len() == 0 {
        Some(seq![])
    } else {
        match docs_chunks(split, special, docs.drop_last()) {
            None => None,
            Some(prev) => match doc_pieces(split, special, docs.last()) {
                None => None,
                Some(ps) => Some(prev + piece_chunks(ps)),
            },
        }
    }
}

/// How often each chunk occurs.
pub open spec fn histogram(cs: Seq<Seq<u8>>) -> Map<Seq<u8>, u32> {
    Map::new(|b: Seq<u8>| cs.to_multiset().count(b) > 0, |b: Seq<u8>| cs.to_multiset().count(b) as u32)
}

/// `es` lists each distinct chunk of `cs` once, with its number of occurrences.
pub open spec fn lists(es: Seq<(Seq<u8>, u32)>, cs: Seq<Seq<u8>>) -> bool {
    &&& forall|i: int, j: int| 0 <= i < j < es.len() ==> (#[trigger] es[i]).0 != (#[trigger] es[j]).0
    &&& forall|i: int| 0 <= i < es.len() ==> (#[trigger] es[i]).1 as nat == cs.to_multiset().count(es[i].0) && es[i].1 > 0
    &&& forall|b: Seq<u8>| #[trigger] cs.contains(b) ==> exists|i: int| 0 <= i < es.len() && es[i].0 == b
}

/// The listed chunks as weighted token sequences.
pub open spec fn chunks_weighted(es: Seq<(Seq<u8>, u32)>) -> model::Weighted {
    Seq::new(es.len(), |i: int| (bytes_tokens(es[i].0), es[i].1))
}

/// `new` is `old` after a successful training on `docs` up to `vocab_size`:
/// for some listing `es` of the documents' chunks with their counts, the
/// merges and the vocabulary are those learned from `es`, starting from the
/// byte and special-token vocabulary, the kept chunks are those of `es` with
/// the learned merges applied, and the pair table counts them, holding an
/// entry exactly for the pairs that occur.
pub open spec fn trained(old: BPE, new: BPE, vocab_size: TokenId, docs: Seq<Seq<char>>) -> bool {
    docs_chunks(old.split_pattern(), old.special_pattern(), docs) matches Some(cs)
        && exists|es: Seq<(Seq<u8>, u32)>| #[trigger] lists(es, cs) && trained_on(old, new, vocab_size, es)
}

/// `new` is `old` after training up to `vocab_size` on the listed chunks `es`.
pub open spec fn trained_on(old: BPE, new: BPE, vocab_size: TokenId, es: Seq<(Seq<u8>, u32)>) -> bool {
    let learned = learned_merges(es, vocab_size, old.specials());
    &&& new.merges() == model::merges_map(Map::empty(), learned)
    &&& new.vocab_bytes() == model::vocab_after(reset_vocab(old.vocab_bytes(), old.specials()), learned)
    &&& new.training_weights() == model::apply_merges(chunks_weighted(es), learned)
    &&& new.training_weights().len() == es.len()
    &&& forall|i: int| 0 <= i < es.len() ==> (#[trigger] new.training_weights()[i]).1 == es[i].1
    &&& forall|p: (TokenId, TokenId)| #[trigger] new.pair_count(p) == model::total_count(new.training_weights(), p) as int
    &&& forall|p: (TokenId, TokenId)| #[trigger] new.has_pair_entry(p) == (new.pair_count(p) > 0)
}

/// Some listed chunk has more bytes than `u32` slot indices can address.
pub open spec fn chunk_too_long(es: Seq<(Seq<u8>, u32)>) -> bool {
    exists|i: int| 0 <= i < es.len() && #[trigger] es[i].0.len() > u32::MAX + 1
}

/// Some chunk occurs more often than a `u32` counts.
pub open spec fn count_overflows(cs: Seq<Seq<u8>>) -> bool {
    exists|b: Seq<u8>| #[trigger] cs.to_multiset().count(b) > u32::MAX
}

/// View of exec entries.
pub open spec fn entries_view(v: Seq<(Vec<u8>, u32)>) -> Seq<(Seq<u8>, u32)> {
    v.map_values(|e: (Vec<u8>, u32)| (e.0@, e.1))
}

/// Adds one occurrence of `chunk`.
fn count_chunk(counts: &mut ChunkCounts, chunk: &[u8], Ghost(cs): Ghost<Seq<Seq<u8>>>) -> (r: Result<(), BPEError>)
    requires
        chunk_counts(*old(counts)) == histogram(cs),
        !count_overflows(cs),
    ensures
        r is Ok ==> chunk_counts(*final(counts)) == histogram(cs.push(chunk@)) && !count_overflows(cs.push(chunk@)),
        r matches Err(e) ==> e is CountOverflow && count_overflows(cs.push(chunk@)),
{
    let ghost ms = cs.to_multiset();
    let ghost ms2 = cs.push(chunk@).to_multiset();
    proof {
        assert(ms2 =~= ms.insert(chunk@));
    }
    match counts.get(chunk) {
        Some(count) => {
            if count == u32::MAX {
                proof {
                    assert(ms2.count(chunk@) > u32::MAX);
                }
                return Err(BPEError::CountOverflow);
            }
            counts.set(chunk, count + 1);
        },
        None => {
            counts.set(chunk, 1);
        },
    }
    proof {
        assert(chunk_counts(*counts) =~= histogram(cs.push(chunk@)));
        assert forall|b: Seq<u8>| #[trigger] ms2.count(b) <= u32::MAX by {
            if b != chunk@ {
                assert(ms.count(b) <= u32::MAX);
            }
        }
    }
    Ok(())
}

impl BPE {
    /// Counts the chunks of every document (special tokens act as boundaries
    /// and are not counted), then builds one weighted merge sequence per
    /// distinct chunk, so that repeated text does not allocate duplicate
    /// sequences.
    pub(crate) fn build_training_merge_sequences(&self, docs: &[&str]) -> (r: Result<Vec<WeightedMergeSequence>, BPEError>)
        requires
            self.wf(),
        ensures
            ({
                let dc = docs_chunks(self.split_pattern(), self.special_pattern(), docs@.map_values(|d: &str| d@));
                &&& dc is None ==> r is Err
                &&& r matches Err(e) ==> e is RegexEvaluation || e is CountOverflow
                &&& r matches Err(e) ==> e is RegexEvaluation ==> dc is None
                &&& r matches Err(e) ==> e is CountOverflow ==> (dc is None || (dc matches Some(cs) && (count_overflows(cs)
                        || exists|es: Seq<(Seq<u8>, u32)>| #[trigger] lists(es, cs) && (es.len() > u32::MAX + 1
                            || chunk_too_long(es)))))
                &&& r matches Ok(v) ==> (dc matches Some(cs) && exists|es: Seq<(Seq<u8>, u32)>| lists(es, cs)
                        && seqs_view(v@) == chunks_weighted(es)
                        && forall|i: int| 0 <= i < v@.len() ==> (#[trigger] v@[i]).merge_sequence.laid_out(bytes_tokens(es[i].0)))
                &&& r matches Ok(v) ==> crate::training::seqs_wf(v@)
            }),
    {
        let ghost docs_view = docs@.map_values(|d: &str| d@);
        let mut counts = ChunkCounts::new();
        let ghost mut cs: Seq<Seq<u8>> = Seq::empty();
        let mut d: usize = 0;
        proof {
            assert(histogram(cs) =~= Map::<Seq<u8>, u32>::empty());
            assert(chunk_counts(counts) =~= Map::<Seq<u8>, u32>::empty());
            assert(docs_view.take(0) =~= Seq::<Seq<char>>::empty());
        }
        while d < docs.len()
            invariant
                d <= docs@.len(),
                self.wf(),
                docs_view == docs@.map_values(|d: &str| d@),
                docs_chunks(self.split_pattern(), self.special_pattern(), docs_view.take(d as int)) == Some(cs),
                chunk_counts(counts) == histogram(cs),
                !count_overflows(cs),
            decreases docs@.len() - d,
        {
            let pieces = self.pieces(docs[d]);
            proof {
                let t = docs_view.take(d as int + 1);
                assert(t.drop_last() =~= docs_view.take(d as int));
                assert(t.last() == docs[d as int]@);
            }
            let pieces = match pieces {
                Ok(p) => p,
                Err(e) => {
                    proof {
                        lemma_docs_chunks_none(self.split_pattern(), self.special_pattern(), docs_view, d as int + 1);
                    }
                    return Err(e);
                },
            };
            let ghost ps = pieces_view(pieces@);
            let ghost cs0 = cs;
            proof {
                let t = docs_view.take(d as int + 1);
                assert(t.drop_last() =~= docs_view.take(d as int));
                assert(t.last() == docs_view[d as int]);
            }
            let mut i: usize = 0;
            while i < pieces.len()
                invariant
                    i <= pieces@.len(),
                    d < docs@.len(),
                    docs_view == docs@.map_values(|d: &str| d@),
                    docs_chunks(self.split_pattern(), self.special_pattern(), docs_view.take(d as int + 1))
                        == Some(cs0 + piece_chunks(ps)),
                    ps == pieces_view(pieces@),
                    cs == cs0 + piece_chunks(ps.take(i as int)),
                    chunk_counts(counts) == histogram(cs),
                    !count_overflows(cs),
                decreases pieces@.len() - i,
            {
                let ghost t = ps.take(i as int + 1);
                proof {
                    assert(t.drop_last() =~= ps.take(i as int));
                    assert(t.last() == ps[i as int]);
                }
                if !pieces[i].0 {
                    let res = count_chunk(&mut counts, pieces[i].1.as_slice(), Ghost(cs));
                    if res.is_err() {
                        proof {
                            let cs2 = cs.push(pieces@[i as int].1@);
                            assert(cs2 =~= cs0 + piece_chunks(t));
                            lemma_piece_chunks_prefix(ps, i as int + 1);
                            let pc = piece_chunks(ps);
                            assert((cs0 + pc).take(cs2.len() as int) =~= cs2);
                            lemma_docs_chunks_overflow(self.split_pattern(), self.special_pattern(), docs_view, d as int + 1,
                                cs0 + piece_chunks(ps), cs2);
                        }
                        return Err(BPEError::CountOverflow);
                    }
                    proof {
                        cs = cs.push(pieces@[i as int].1@);
                        assert(cs =~= cs0 + piece_chunks(t));
                    }
                } else {
                    proof {
                        assert(cs =~= cs0 + piece_chunks(t));
                    }
                }
                i = i + 1;
            }
            proof {
                assert(ps.take(pieces@.len() as int) =~= ps);
                assert(cs == cs0 + piece_chunks(ps));
            }
            d = d + 1;
        }
        proof {
            assert(docs_view.take(docs@.len() as int) =~= docs_view);
        }
        let entries = counts.into_entries();
        let ghost es = entries_view(entries@);
        proof {
            assert forall|i: int| 0 <= i < es.len() implies (#[trigger] es[i]).1 as nat == cs.to_multiset().count(es[i].0)
                && es[i].1 > 0 by {
                assert(histogram(cs).get(entries@[i].0@) == Some(entries@[i].1));
                assert(cs.to_multiset().count(es[i].0) <= u32::MAX);
            }
            assert forall|i: int, j: int| 0 <= i < j < es.len() implies (#[trigger] es[i]).0 != (#[trigger] es[j]).0 by {
                assert(entries@[i].0@ != entries@[j].0@);
            }
            assert forall|b: Seq<u8>| #[trigger] cs.contains(b) implies exists|i: int| 0 <= i < es.len() && es[i].0 == b by {
                assert(histogram(cs).contains_key(b));
                let i = choose|i: int| 0 <= i < entries@.len() && entries@[i].0@ == b;
                assert(es[i].0 == b);
            }
            assert(lists(es, cs));
        }
        if entries.len() as u64 > 0xffff_ffffu64 + 1 {
            proof {
                assert(docs_chunks(self.split_pattern(), self.special_pattern(), docs@.map_values(|d: &str| d@)) == Some(cs));
                assert(es.len() > u32::MAX + 1);
                assert(lists(es, cs) && (es.len() > u32::MAX + 1 || chunk_too_long(es)));
            }
            return Err(BPEError::CountOverflow);
        }
        let mut merge_sequences: Vec<WeightedMergeSequence> = Vec::new();
        let mut k: usize = 0;
        while k < entries.len()
            invariant
                k <= entries@.len(),
                entries@.len() <= u32::MAX + 1,
                es == entries_view(entries@),
                lists(es, cs),
                docs_chunks(self.split_pattern(), self.special_pattern(), docs@.map_values(|d: &str| d@)) == Some(cs),
                merge_sequences@.len() == k,
                seqs_view(merge_sequences@) == chunks_weighted(es.take(k as int)),
                forall|x: int| 0 <= x < k ==> (#[trigger] merge_sequences@[x]).merge_sequence.wf() && merge_sequences@[x].frequency > 0
                    && merge_sequences@[x].merge_sequence.laid_out(bytes_tokens(es[x].0)),
            decreases entries@.len() - k,
        {
            let frequency = entries[k].1;
            let len = entries[k].0.len();
            let ghost w = chunks_weighted(es.take(k as int + 1));
            proof {
                assert(w.drop_last() =~= chunks_weighted(es.take(k as int)));
                assert(w.last() == (bytes_tokens(es[k as int].0), es[k as int].1));
                assert(w.last().0.len() == len);
            }
            if len as u64 > 0x1_0000_0000u64 {
                proof {
                    assert(es[k as int].0.len() > u32::MAX + 1);
                    assert(chunk_too_long(es));
                }
                return Err(BPEError::CountOverflow);
            }
            let ms = MergeSequence::new(entries[k].0.as_slice());
            proof {
                assert(ms@ =~= bytes_tokens(es[k as int].0));
            }
            let ghost before = merge_sequences@;
            merge_sequences.push(WeightedMergeSequence { merge_sequence: ms, frequency });
            proof {
                assert(seqs_view(merge_sequences@) =~= seqs_view(before).push((bytes_tokens(es[k as int].0), frequency)));
                assert(seqs_view(merge_sequences@) =~= w);
            }
            k = k + 1;
        }
        proof {
            assert(es.take(entries@.len() as int) =~= es);
        }
        Ok(merge_sequences)
    }
}

/// Ids of the configured special tokens.
pub open spec fn special_ids(s: Seq<(Seq<char>, TokenId)>) -> Set<TokenId> {
    Set::new(|id: TokenId| exists|i: int| 0 <= i < s.len() && s[i].1 == id)
}

/// The vocabulary kept between trainings: the bytes and the special tokens.
pub open spec fn reset_vocab(v: Map<TokenId, Seq<u8>>, s: Seq<(Seq<char>, TokenId)>) -> Map<TokenId, Seq<u8>> {
    v.restrict(Set::new(|id: TokenId| id < BASE_VOCAB_SIZE || special_ids(s).contains(id)))
}

/// The merges learned from a listing of the corpus chunks.
pub open spec fn learned_merges(es: Seq<(Seq<u8>, u32)>, vocab_size: TokenId, s: Seq<(Seq<char>, TokenId)>) -> Seq<((TokenId, TokenId), TokenId)> {
    model::train_merges(chunks_weighted(es), model::merge_ids(BASE_VOCAB_SIZE as int, vocab_size as int, special_ids(s)))
}

impl BPE {
    /// Ids of the configured special tokens.
    fn special_id_set(&self) -> (r: HashSet<TokenId>)
        ensures
            r@ == special_ids(self.specials()),
    {
        proof {
            self.reveal_model();
        }
        let mut r: HashSet<TokenId> = HashSet::new();
        let mut i: usize = 0;
        while i < self.special_tokens.len()
            invariant
                i <= self.special_tokens@.len(),
                self.specials() == specials_view(self.special_tokens@),
                r@ == Set::new(|id: TokenId| exists|j: int| 0 <= j < i && self.specials()[j].1 == id),
            decreases self.special_tokens@.len() - i,
        {
            r.insert(self.special_tokens[i].1);
            proof {
                assert(self.specials()[i as int].1 == self.special_tokens@[i as int].1);
                assert(r@ =~= Set::new(|id: TokenId| exists|j: int| 0 <= j < i + 1 && self.specials()[j].1 == id)) by {
                    assert forall|id: TokenId| r@.contains(id) implies exists|j: int| 0 <= j < i + 1 && self.specials()[j].1 == id by {
                        if id == self.special_tokens@[i as int].1 {
                            assert(self.specials()[i as int].1 == id);
                        }
                    }
                }
            }
            i = i + 1;
        }
        proof {
            assert(r@ =~= special_ids(self.specials()));
        }
        r
    }

    /// Clears all learned merges and training state while keeping the byte
    /// vocabulary and the special tokens.
    fn reset_training_state(&mut self)
        requires
            old(self).wf(),
        ensures
            final(self).wf(),
            final(self).split_pattern() == old(self).split_pattern(),
            final(self).special_pattern() == old(self).special_pattern(),
            final(self).specials() == old(self).specials(),
            final(self).vocab_bytes() == reset_vocab(old(self).vocab_bytes(), old(self).specials()),
            final(self).merges() == Map::<(TokenId, TokenId), TokenId>::empty(),
            final(self).index_wf(),
            forall|k: u64| !final(self).token_id_pair_info@.contains_key(k),
            final(self).merge_sequences@.len() == 0,
            final(self).count_to_token_id_pairs@.dom() == Set::<u32>::empty(),
            forall|x: TokenId| #[trigger] final(self).vocab@.contains_key(x) ==>
                x < BASE_VOCAB_SIZE || special_ids(final(self).specials()).contains(x),
    {
        proof {
            self.reveal_model();
        }
        let reserved = self.special_id_set();
        let mut keys_vec: Vec<TokenId> = Vec::new();
        let ghost keys = vstd::std_specs::hash::spec_keys_iter(&self.vocab).remaining();
        let ghost v0 = self.vocab@;
        proof {
            assert(keys.unref().to_set() == v0.dom());
        }
        for x in it: self.vocab.keys()
            invariant
                it.seq() == keys,
                *self == *old(self),
                keys_vec@.len() == it.index(),
                forall|j: int| 0 <= j < keys_vec@.len() ==> keys_vec@[j] == *keys[j],
        {
            keys_vec.push(*x);
        }
        proof {
            assert(keys_vec@.len() == keys.len());
            assert(keys_vec@ =~= keys.unref());
        }
        let mut k: usize = 0;
        while k < keys_vec.len()
            invariant
                k <= keys_vec@.len(),
                keys_vec@.to_set() == v0.dom(),
                v0 == old(self).vocab@,
                reserved@ == special_ids(specials_view(self.special_tokens@)),
                self.special_tokens == old(self).special_tokens,
                self.split_pattern_source == old(self).split_pattern_source,
                self.special_split_pattern_source == old(self).special_split_pattern_source,
                self.merge_map == old(self).merge_map,
                forall|x: TokenId| #[trigger] self.vocab@.contains_key(x) <==> (v0.contains_key(x)
                    && ((x < BASE_VOCAB_SIZE || reserved@.contains(x)) || !keys_vec@.take(k as int).contains(x))),
                forall|x: TokenId| #[trigger] self.vocab@.contains_key(x) ==> self.vocab@[x] == v0[x],
            decreases keys_vec@.len() - k,
        {
            let id = keys_vec[k];
            if !(id < BASE_VOCAB_SIZE || reserved.contains(&id)) {
                self.vocab.remove(&id);
            }
            proof {
                let t0 = keys_vec@.take(k as int);
                let t1 = keys_vec@.take(k as int + 1);
                assert(t1 =~= t0.push(id));
                assert forall|x: TokenId| t1.contains(x) == (t0.contains(x) || x == id) by {
                    if t1.contains(x) {
                        let j = choose|j: int| 0 <= j < t1.len() && t1[j] == x;
                        if j < t0.len() {
                            assert(t0[j] == x);
                        }
                    }
                    if t0.contains(x) {
                        let j = choose|j: int| 0 <= j < t0.len() && t0[j] == x;
                        assert(t1[j] == x);
                    }
                    if x == id {
                        assert(t1[k as int] == x);
                    }
                }
            }
            k = k + 1;
        }
        self.merge_map.clear();
        self.merge_sequences.clear();
        self.count_to_token_id_pairs.clear();
        self.max_token_id_pair_count = 0;
        self.token_id_pair_info.clear();
        proof {
            self.reveal_model();
            assert(keys_vec@.take(keys_vec@.len() as int) =~= keys_vec@);
            let kept = Set::new(|id: TokenId| id < BASE_VOCAB_SIZE || special_ids(self.specials()).contains(id));
            assert forall|x: TokenId| #[trigger] self.vocab@.contains_key(x) == (v0.contains_key(x) && kept.contains(x)) by {
                if v0.contains_key(x) {
                    assert(keys_vec@.to_set().contains(x));
                }
            }
            assert(vocab_view(self.vocab@) =~= vocab_view(v0).restrict(kept));
            assert(merges_view(self.merge_map@) =~= Map::<(TokenId, TokenId), TokenId>::empty());
            let sv = self.specials();
            assert forall|i: int| 0 <= i < sv.len() implies BASE_VOCAB_SIZE <= (#[trigger] sv[i]).1
                && vocab_view(self.vocab@).contains_key(sv[i].1) && vocab_view(self.vocab@)[sv[i].1] == encode_utf8(sv[i].0) by {
                assert(special_ids(sv).contains(sv[i].1));
                assert(vocab_view(v0).contains_key(sv[i].1));
            }
            assert forall|b: TokenId| b < BASE_VOCAB_SIZE implies #[trigger] vocab_view(self.vocab@).contains_key(b)
                && vocab_view(self.vocab@)[b] == seq![b as u8] by {
                assert(vocab_view(v0).contains_key(b));
            }
        }
    }

    /// Learns merge rules from `docs` until `vocab_size` is reached or no
    /// adjacent pair remains.
    ///
    /// Learned merges replace those of an earlier training; the byte
    /// vocabulary and the special tokens stay. Merged ids are handed out from
    /// 256 upwards in learning order, skipping the special tokens' ids; each
    /// round merges the pair with the highest weighted count, the smallest pair
    /// among equals.
    pub fn train(&mut self, vocab_size: TokenId, docs: &[&str]) -> (r: Result<(), BPEError>)
        requires
            old(self).wf(),
        ensures
            final(self).wf(),
            final(self).split_pattern() == old(self).split_pattern(),
            final(self).special_pattern() == old(self).special_pattern(),
            final(self).specials() == old(self).specials(),
            ({
                let dc = docs_chunks(old(self).split_pattern(), old(self).special_pattern(), docs@.map_values(|d: &str| d@));
                let v0 = reset_vocab(old(self).vocab_bytes(), old(self).specials());
                &&& dc is None ==> r is Err
                &&& r matches Err(e) ==> e is RegexEvaluation || e is CountOverflow
                &&& r matches Err(e) ==> e is RegexEvaluation ==> dc is None
                &&& r matches Err(e) ==> e is CountOverflow ==> (dc is None || (dc matches Some(cs) && (count_overflows(cs)
                        || exists|es: Seq<(Seq<u8>, u32)>| #[trigger] lists(es, cs) && (es.len() > u32::MAX + 1
                            || chunk_too_long(es) || !model::counts_fit(chunks_weighted(es))))))
                &&& r is Err ==> final(self).merges() == Map::<(TokenId, TokenId), TokenId>::empty()
                        && final(self).vocab_bytes() == v0
                        && final(self).training_weights().len() == 0
                        && final(self).pair_table_empty()
                        && final(self).buckets_empty()
                &&& r is Ok ==> trained(*old(self), *final(self), vocab_size, docs@.map_values(|d: &str| d@))
            }),
    {
        self.reset_training_state();
        let mut merge_sequences = match self.build_training_merge_sequences(docs) {
            Ok(v) => v,
            Err(e) => {
                proof {
                    self.reveal_model();
                    assert(self.token_id_pair_info@.dom() =~= Set::<u64>::empty());
                    assert(self.split_pattern() == old(self).split_pattern());
                    assert(self.special_pattern() == old(self).special_pattern());
                }
                return Err(e);
            },
        };
        let ghost es = choose|es: Seq<(Seq<u8>, u32)>| lists(es, docs_chunks(self.split_pattern(), self.special_pattern(),
            docs@.map_values(|d: &str| d@)).unwrap()) && seqs_view(merge_sequences@) == chunks_weighted(es);
        proof {
            self.reveal_model();
            let ws = seqs_view(merge_sequences@);
            assert forall|i: int| 0 <= i < ws.len() implies model::tokens_in(#[trigger] ws[i].0, Set::new(|x: TokenId| x < BASE_VOCAB_SIZE))
                && model::tokens_in(ws[i].0, self.vocab@.dom()) by {
                assert(ws[i].0 == bytes_tokens(es[i].0));
                assert forall|j: int| 0 <= j < ws[i].0.len() implies Set::new(|x: TokenId| x < BASE_VOCAB_SIZE).contains(#[trigger] ws[i].0[j])
                    && self.vocab@.dom().contains(ws[i].0[j]) by {
                    let b = ws[i].0[j];
                    assert(b < BASE_VOCAB_SIZE);
                    assert(vocab_view(self.vocab@).contains_key(b));
                }
            }
        }
        let ghost before_stats = *self;
        match self.build_initial_token_id_pair_stats(&merge_sequences) {
            Ok(()) => {},
            Err(e) => {
                proof {
                    self.reveal_model();
                    before_stats.reveal_model();
                    assert(self.wf());
                }
                self.reset_training_state();
                proof {
                    self.reveal_model();
                    before_stats.reveal_model();
                    assert(self.vocab_bytes() =~= reset_vocab(old(self).vocab_bytes(), old(self).specials()));
                    assert(self.token_id_pair_info@.dom() =~= Set::<u64>::empty());
                    assert(!model::counts_fit(chunks_weighted(es)));
                    let cs = docs_chunks(old(self).split_pattern(), old(self).special_pattern(),
                        docs@.map_values(|d: &str| d@)).unwrap();
                    assert(lists(es, cs) && (es.len() > u32::MAX + 1 || chunk_too_long(es)
                        || !model::counts_fit(chunks_weighted(es))));
                }
                return Err(e);
            },
        }
        let reserved = self.special_id_set();
        proof {
            self.reveal_model();
            assert(crate::training::merges_sound(vocab_view(self.vocab@), merges_view(self.merge_map@)));
        }
        let ghost before_learning = merge_sequences@;
        self.learn_merges(&mut merge_sequences, vocab_size, &reserved);
        self.merge_sequences = merge_sequences;
        proof {
            self.reveal_model();
            assert forall|i: int| 0 <= i < es.len() implies (#[trigger] self.training_weights()[i]).1 == es[i].1 by {
                assert(self.merge_sequences@[i].frequency == before_learning[i].frequency);
                assert(seqs_view(before_learning)[i].1 == es[i].1);
            }
            assert forall|p: (TokenId, TokenId)| #[trigger] self.pair_count(p)
                == model::total_count(self.training_weights(), p) as int by {
                model::lemma_pair_key(p);
                assert(crate::training::info_count(self.token_id_pair_info@, model::pair_key(p))
                    == model::total_count(seqs_view(self.merge_sequences@), model::key_pair(model::pair_key(p))) as int);
            }
            assert(model::merges_map(Map::empty(), learned_merges(es, vocab_size, self.specials()))
                == model::merges_map(merges_view(Map::empty()), learned_merges(es, vocab_size, self.specials()))) by {
                assert(merges_view(Map::<u64, TokenId>::empty()) =~= Map::<(TokenId, TokenId), TokenId>::empty());
            }
        }
        Ok(())
    }
}

/// The chunks of a prefix of the pieces come first among all chunks.
proof fn lemma_piece_chunks_prefix(ps: Seq<crate::split::Piece>, n: int)
    requires
        0 <= n <= ps.len(),
    ensures
        piece_chunks(ps.take(n)).len() <= piece_chunks(ps).len(),
        piece_chunks(ps).take(piece_chunks(ps.take(n)).len() as int) == piece_chunks(ps.take(n)),
    decreases ps.len() - n,
{
    if n == ps.len() {
        assert(ps.take(n) =~= ps);
        assert(piece_chunks(ps).take(piece_chunks(ps).len() as int) =~= piece_chunks(ps));
    } else {
        let q = ps.drop_last();
        assert(q.take(n) =~= ps.take(n));
        lemma_piece_chunks_prefix(q, n);
        let a = piece_chunks(ps.take(n));
        let b = piece_chunks(q);
        assert(piece_chunks(ps).take(a.len() as int) =~= b.take(a.len() as int));
    }
}

/// A failing document makes the whole corpus fail.
proof fn lemma_docs_chunks_none(split: Seq<char>, special: Option<Seq<char>>, docs: Seq<Seq<char>>, n: int)
    requires
        0 < n <= docs.len(),
        doc_pieces(split, special, docs[n - 1]) is None,
    ensures
        docs_chunks(split, special, docs) is None,
    decreases docs.len() - n,
{
    if n == docs.len() {
        assert(docs.last() == docs[n - 1]);
    } else {
        let d = docs.drop_last();
        lemma_docs_chunks_none(split, special, d, n);
    }
}

/// The chunks of a prefix of the corpus come first in the chunks of the corpus.
proof fn lemma_docs_chunks_prefix(split: Seq<char>, special: Option<Seq<char>>, docs: Seq<Seq<char>>, n: int, pre: Seq<Seq<u8>>)
    requires
        0 <= n <= docs.len(),
        docs_chunks(split, special, docs.take(n)) == Some(pre),
    ensures
        docs_chunks(split, special, docs) matches Some(all) ==> pre.len() <= all.len() && all.take(pre.len() as int) == pre,
    decreases docs.len() - n,
{
    if n == docs.len() {
        assert(docs.take(n) =~= docs);
        if let Some(all) = docs_chunks(split, special, docs) {
            assert(all.take(pre.len() as int) =~= all);
        }
    } else {
        let d = docs.drop_last();
        assert(d.take(n) =~= docs.take(n));
        lemma_docs_chunks_prefix(split, special, d, n, pre);
        if let Some(all) = docs_chunks(split, special, docs) {
            let prev = docs_chunks(split, special, d).unwrap();
            assert(all.take(pre.len() as int) =~= prev.take(pre.len() as int));
        }
    }
}

/// A chunk counted too often in a prefix is counted too often in the corpus.
proof fn lemma_docs_chunks_overflow(
    split: Seq<char>,
    special: Option<Seq<char>>,
    docs: Seq<Seq<char>>,
    n: int,
    pre: Seq<Seq<u8>>,
    part: Seq<Seq<u8>>,
)
    requires
        0 < n <= docs.len(),
        docs_chunks(split, special, docs.take(n)) == Some(pre),
        part.len() <= pre.len(),
        pre.take(part.len() as int) == part,
        count_overflows(part),
    ensures
        docs_chunks(split, special, docs) is None || (docs_chunks(split, special, docs) matches Some(all) && count_overflows(all)),
{
    lemma_docs_chunks_prefix(split, special, docs, n, pre);
    if let Some(all) = docs_chunks(split, special, docs) {
        let b = choose|b: Seq<u8>| #[trigger] part.to_multiset().count(b) > u32::MAX;
        lemma_count_prefix(all, part.len() as int, b);
        assert(all.take(part.len() as int) == part);
        assert(all.to_multiset().count(b) > u32::MAX);
    }
}

/// A prefix counts no more occurrences than the whole sequence.
proof fn lemma_count_prefix(s: Seq<Seq<u8>>, n: int, b: Seq<u8>)
    requires
        0 <= n <= s.len(),
    ensures
        s.take(n).to_multiset().count(b) <= s.to_multiset().count(b),
    decreases s.len() - n,
{
    if n < s.len() {
        lemma_count_prefix(s, n + 1, b);
        assert(s.take(n + 1) =~= s.take(n).push(s[n]));
    } else {
        assert(s.take(n) =~= s);
    }
}


} // verus!
