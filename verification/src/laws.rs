//! Properties of the model as a whole: decoding undoes encoding, learned
//! merges never touch special tokens, and merge ids follow learning order.

use vstd::prelude::*;
use vstd::utf8::encode_utf8;
use crate::bpe::{vocab_sound, BPE};
use crate::config::{is_special_pattern, keys_unique, lemma_before_order, priority_sorted, table_of, token_before, alternation};
use crate::corpus::{chunks_weighted, docs_chunks, learned_merges, lists, reset_vocab, special_ids, trained, trained_on};
use crate::encode::{decode_ids, encode_doc, encode_sequences};
use crate::model::{self, encode_chunk, is_lowest_merge, mergeable, pair_of};
use crate::pattern::{haystack, regex_spans, spans_wf};
use crate::split::{bytes_tokens, chunk_pieces, doc_pieces, piece_chunks, piece_sequences, segment_pieces, special_lookup, Piece};
use crate::training::merges_sound;
use crate::types::{TokenId, BASE_VOCAB_SIZE};

verus! {

/// The bytes that an encoding stands for: every chunk, and every special-token
/// match whose text is a configured special token.
pub open spec fn piece_bytes(specials: Seq<(Seq<char>, TokenId)>, ps: Seq<Piece>) -> Seq<u8>
    decreases ps.len(),
{
    if ps.len() == 0 {
        seq![]
    } else {
        let (is_special, b) = ps.last();
        piece_bytes(specials, ps.drop_last()) + if !is_special || special_lookup(specials, b) is Some {
            b
        } else {
            seq![]
        }
    }
}

/// Decoding distributes over concatenation.
pub proof fn lemma_decode_concat(v: Map<TokenId, Seq<u8>>, a: Seq<TokenId>, b: Seq<TokenId>)
    ensures
        decode_ids(v, a + b) == decode_ids(v, a) + decode_ids(v, b),
    decreases b.len(),
{
    if b.len() == 0 {
        assert(a + b =~= a);
        assert(decode_ids(v, a) + decode_ids(v, b) =~= decode_ids(v, a));
    } else {
        assert((a + b).drop_last() =~= a + b.drop_last());
        assert((a + b).last() == b.last());
        lemma_decode_concat(v, a, b.drop_last());
        let t = if v.contains_key(b.last()) { v[b.last()] } else { seq![] };
        assert(decode_ids(v, a) + decode_ids(v, b.drop_last()) + t =~= decode_ids(v, a) + (decode_ids(v, b.drop_last()) + t));
    }
}

/// One id decodes to its bytes, or to nothing when unknown.
pub proof fn lemma_decode_single(v: Map<TokenId, Seq<u8>>, x: TokenId)
    ensures
        decode_ids(v, seq![x]) == if v.contains_key(x) { v[x] } else { seq![] },
{
    let s = seq![x];
    assert(s.drop_last() =~= Seq::<TokenId>::empty());
    assert(s.last() == x);
    let t = if v.contains_key(x) { v[x] } else { seq![] };
    assert(decode_ids(v, s.drop_last()) == Seq::<u8>::empty());
    assert(decode_ids(v, s) == decode_ids(v, s.drop_last()) + t);
    assert(Seq::<u8>::empty() + t =~= t);
}

/// Raw byte ids decode to the bytes themselves.
pub proof fn lemma_decode_bytes(v: Map<TokenId, Seq<u8>>, bs: Seq<u8>)
    requires
        forall|b: TokenId| b < BASE_VOCAB_SIZE ==> #[trigger] v.contains_key(b) && v[b] == seq![b as u8],
    ensures
        decode_ids(v, bytes_tokens(bs)) == bs,
    decreases bs.len(),
{
    if bs.len() > 0 {
        let t = bytes_tokens(bs);
        assert(t.drop_last() =~= bytes_tokens(bs.drop_last()));
        lemma_decode_bytes(v, bs.drop_last());
        let x = bs.last();
        assert(t.last() == x as TokenId);
        assert(v.contains_key(x as TokenId));
        assert(bs.drop_last() + seq![x] =~= bs);
    }
}

/// Replacing a mergeable pair by its merged id decodes to the same bytes.
pub proof fn lemma_decode_merge_step(v: Map<TokenId, Seq<u8>>, mm: Map<(TokenId, TokenId), TokenId>, t: Seq<TokenId>, j: int)
    requires
        merges_sound(v, mm),
        mergeable(mm, t, j),
    ensures
        decode_ids(v, t.update(j, mm[pair_of(t, j)]).remove(j + 1)) == decode_ids(v, t),
{
    let p = pair_of(t, j);
    let m = mm[p];
    let t2 = t.update(j, m).remove(j + 1);
    let pre = t.take(j);
    let post = t.skip(j + 2);
    assert(t =~= pre + seq![t[j], t[j + 1]] + post);
    assert(t2 =~= pre + seq![m] + post);
    lemma_decode_concat(v, pre + seq![t[j], t[j + 1]], post);
    lemma_decode_concat(v, pre, seq![t[j], t[j + 1]]);
    lemma_decode_concat(v, pre + seq![m], post);
    lemma_decode_concat(v, pre, seq![m]);
    assert(seq![t[j], t[j + 1]] =~= seq![t[j]] + seq![t[j + 1]]);
    lemma_decode_concat(v, seq![t[j]], seq![t[j + 1]]);
    lemma_decode_single(v, t[j]);
    lemma_decode_single(v, t[j + 1]);
    lemma_decode_single(v, m);
    assert(pre + seq![t[j], t[j + 1]] + post =~= (pre + seq![t[j], t[j + 1]]) + post);
}

/// Encoding a chunk with sound merges keeps the bytes it decodes to.
pub proof fn lemma_decode_encode_chunk(v: Map<TokenId, Seq<u8>>, mm: Map<(TokenId, TokenId), TokenId>, t: Seq<TokenId>)
    requires
        merges_sound(v, mm),
    ensures
        decode_ids(v, encode_chunk(mm, t)) == decode_ids(v, t),
    decreases t.len(),
{
    if exists|j: int| is_lowest_merge(mm, t, j) {
        let j = choose|j: int| is_lowest_merge(mm, t, j);
        let t2 = t.update(j, mm[pair_of(t, j)]).remove(j + 1);
        lemma_decode_merge_step(v, mm, t, j);
        lemma_decode_encode_chunk(v, mm, t2);
    }
}

/// A special token found by its bytes has exactly those bytes.
pub proof fn lemma_special_lookup(specials: Seq<(Seq<char>, TokenId)>, bytes: Seq<u8>)
    requires
        special_lookup(specials, bytes) is Some,
    ensures
        exists|i: int| 0 <= i < specials.len() && specials[i].1 == special_lookup(specials, bytes).unwrap()
            && encode_utf8(specials[i].0) == bytes,
    decreases specials.len(),
{
    if encode_utf8(specials[0].0) != bytes {
        lemma_special_lookup(specials.drop_first(), bytes);
        let i = choose|i: int| 0 <= i < specials.drop_first().len()
            && specials.drop_first()[i].1 == special_lookup(specials.drop_first(), bytes).unwrap()
            && encode_utf8(specials.drop_first()[i].0) == bytes;
        assert(specials[i + 1] == specials.drop_first()[i]);
    }
}

/// Decoding the encoding of the pieces gives back their bytes.
pub proof fn lemma_decode_pieces(
    v: Map<TokenId, Seq<u8>>,
    mm: Map<(TokenId, TokenId), TokenId>,
    specials: Seq<(Seq<char>, TokenId)>,
    ps: Seq<Piece>,
)
    requires
        vocab_sound(v, mm, specials),
    ensures
        decode_ids(v, encode_sequences(mm, piece_sequences(specials, ps))) == piece_bytes(specials, ps),
    decreases ps.len(),
{
    if ps.len() > 0 {
        lemma_decode_pieces(v, mm, specials, ps.drop_last());
        let prev = piece_sequences(specials, ps.drop_last());
        let (is_special, b) = ps.last();
        if !is_special {
            let seqs = prev.push(bytes_tokens(b));
            assert(seqs.drop_last() =~= prev);
            lemma_decode_concat(v, encode_sequences(mm, prev), encode_chunk(mm, bytes_tokens(b)));
            lemma_decode_encode_chunk(v, mm, bytes_tokens(b));
            lemma_decode_bytes(v, b);
        } else {
            match special_lookup(specials, b) {
                Some(id) => {
                    let seqs = prev.push(seq![id]);
                    assert(seqs.drop_last() =~= prev);
                    lemma_decode_concat(v, encode_sequences(mm, prev), encode_chunk(mm, seq![id]));
                    lemma_decode_encode_chunk(v, mm, seq![id]);
                    lemma_special_lookup(specials, b);
                    let i = choose|i: int| 0 <= i < specials.len() && specials[i].1 == id && encode_utf8(specials[i].0) == b;
                    assert(v.contains_key(specials[i].1));
                    lemma_decode_single(v, id);
                },
                None => {},
            }
        }
    }
}

/// Decoding undoes encoding: the bytes decoded from the encoding of a text
/// are the bytes of every chunk that the split pattern found in it and of
/// every special token recognized in it, in order.
pub proof fn law_decode_encode(b: BPE, text: Seq<char>)
    requires
        b.wf(),
        encode_doc(b.merges(), b.split_pattern(), b.special_pattern(), b.specials(), text) is Some,
    ensures
        decode_ids(b.vocab_bytes(), encode_doc(b.merges(), b.split_pattern(), b.special_pattern(), b.specials(), text).unwrap())
            == piece_bytes(b.specials(), doc_pieces(b.split_pattern(), b.special_pattern(), text).unwrap()),
{
    b.reveal_model();
    lemma_decode_pieces(b.vocab_bytes(), b.merges(), b.specials(), doc_pieces(b.split_pattern(), b.special_pattern(), text).unwrap());
}

/// A special token's id decodes to its text.
pub proof fn law_special_token_decodes_to_text(b: BPE, i: int)
    requires
        b.wf(),
        0 <= i < b.specials().len(),
    ensures
        decode_ids(b.vocab_bytes(), seq![b.specials()[i].1]) == encode_utf8(b.specials()[i].0),
{
    b.reveal_model();
    lemma_decode_single(b.vocab_bytes(), b.specials()[i].1);
}

/// Without learned merges a chunk encodes to itself.
pub proof fn law_encode_without_merges(t: Seq<TokenId>)
    ensures
        encode_chunk(Map::empty(), t) == t,
{
    assert(!exists|j: int| is_lowest_merge(Map::<(TokenId, TokenId), TokenId>::empty(), t, j));
}

/// Ids from `merge_ids` lie in range, avoid the reserved ones and increase.
pub proof fn lemma_merge_ids(lo: int, hi: int, reserved: Set<TokenId>)
    requires
        0 <= lo,
        hi <= u32::MAX + 1,
    ensures
        forall|j: int| 0 <= j < model::merge_ids(lo, hi, reserved).len() ==>
            lo <= #[trigger] model::merge_ids(lo, hi, reserved)[j] < hi
            && !reserved.contains(model::merge_ids(lo, hi, reserved)[j]),
        forall|j: int, k: int| 0 <= j < k < model::merge_ids(lo, hi, reserved).len() ==>
            #[trigger] model::merge_ids(lo, hi, reserved)[j] < #[trigger] model::merge_ids(lo, hi, reserved)[k],
    decreases hi - lo,
{
    if lo < hi {
        lemma_merge_ids(lo + 1, hi, reserved);
        let r = model::merge_ids(lo + 1, hi, reserved);
        let s = model::merge_ids(lo, hi, reserved);
        if !reserved.contains(lo as TokenId) {
            assert forall|j: int| 0 <= j < s.len() implies lo <= #[trigger] s[j] < hi && !reserved.contains(s[j]) by {
                if j > 0 {
                    assert(s[j] == r[j - 1]);
                }
            }
            assert forall|j: int, k: int| 0 <= j < k < s.len() implies #[trigger] s[j] < #[trigger] s[k] by {
                assert(s[k] == r[k - 1]);
                if j > 0 {
                    assert(s[j] == r[j - 1]);
                }
            }
        }
    }
}

/// The merges learned with ids `ids` carry those ids in order, and pair only
/// tokens of `allowed` or ids handed out before.
pub proof fn lemma_train_merges_shape(ws: model::Weighted, ids: Seq<TokenId>, allowed: Set<TokenId>)
    requires
        model::ws_tokens_in(ws, allowed),
    ensures
        model::train_merges(ws, ids).len() <= ids.len(),
        forall|j: int| 0 <= j < model::train_merges(ws, ids).len() ==> {
            let x = #[trigger] model::train_merges(ws, ids)[j];
            &&& x.1 == ids[j]
            &&& allowed.contains(x.0.0) || exists|k: int| 0 <= k < j && ids[k] == x.0.0
            &&& allowed.contains(x.0.1) || exists|k: int| 0 <= k < j && ids[k] == x.0.1
        },
    decreases ids.len(),
{
    let l = model::train_merges(ws, ids);
    if ids.len() > 0 && model::has_pair(ws) {
        let p = model::best_pair(ws);
        let m = ids[0];
        let ws2 = model::merge_ws(ws, p, m);
        model::lemma_best_pair_exists(ws);
        model::lemma_pair_tokens_in(ws, p, allowed);
        model::lemma_merge_ws_tokens(ws, p, m, allowed);
        lemma_train_merges_shape(ws2, ids.drop_first(), allowed.insert(m));
        let rest = model::train_merges(ws2, ids.drop_first());
        assert(l == seq![(p, m)] + rest);
        assert forall|j: int| 0 <= j < l.len() implies {
            let x = #[trigger] l[j];
            &&& x.1 == ids[j]
            &&& allowed.contains(x.0.0) || exists|k: int| 0 <= k < j && ids[k] == x.0.0
            &&& allowed.contains(x.0.1) || exists|k: int| 0 <= k < j && ids[k] == x.0.1
        } by {
            if j > 0 {
                let x = l[j];
                assert(x == rest[j - 1]);
                assert(ids.drop_first()[j - 1] == ids[j]);
                if !allowed.insert(m).contains(x.0.0) {
                    let k = choose|k: int| 0 <= k < j - 1 && ids.drop_first()[k] == x.0.0;
                    assert(ids[k + 1] == x.0.0);
                } else if !allowed.contains(x.0.0) {
                    assert(ids[0] == x.0.0);
                }
                if !allowed.insert(m).contains(x.0.1) {
                    let k = choose|k: int| 0 <= k < j - 1 && ids.drop_first()[k] == x.0.1;
                    assert(ids[k + 1] == x.0.1);
                } else if !allowed.contains(x.0.1) {
                    assert(ids[0] == x.0.1);
                }
            }
        }
    }
}

/// Learned merges never involve a special token: neither part of a learned
/// pair nor a merged id is the id of a special token, and merged ids lie above
/// the byte range and increase in learning order (a lower id was learned
/// earlier and takes priority when encoding).
pub proof fn law_learned_merges(es: Seq<(Seq<u8>, u32)>, vocab_size: TokenId, specials: Seq<(Seq<char>, TokenId)>)
    requires
        forall|i: int| 0 <= i < specials.len() ==> BASE_VOCAB_SIZE <= #[trigger] specials[i].1,
    ensures
        ({
            let l = learned_merges(es, vocab_size, specials);
            let r = special_ids(specials);
            &&& forall|j: int| 0 <= j < l.len() ==> !r.contains((#[trigger] l[j]).0.0) && !r.contains(l[j].0.1)
                    && !r.contains(l[j].1) && BASE_VOCAB_SIZE <= l[j].1 < vocab_size
            &&& forall|j: int, k: int| 0 <= j < k < l.len() ==> (#[trigger] l[j]).1 < (#[trigger] l[k]).1
        }),
{
    let ws = chunks_weighted(es);
    let r = special_ids(specials);
    let ids = model::merge_ids(BASE_VOCAB_SIZE as int, vocab_size as int, r);
    let bytes = Set::new(|x: TokenId| x < BASE_VOCAB_SIZE);
    assert forall|i: int| 0 <= i < ws.len() implies model::tokens_in(#[trigger] ws[i].0, bytes) by {
        assert forall|j: int| 0 <= j < ws[i].0.len() implies bytes.contains(#[trigger] ws[i].0[j]) by {
            assert(ws[i].0[j] == es[i].0[j] as TokenId);
        }
    }
    lemma_train_merges_shape(ws, ids, bytes);
    lemma_merge_ids(BASE_VOCAB_SIZE as int, vocab_size as int, r);
    let l = learned_merges(es, vocab_size, specials);
    assert forall|x: TokenId| r.contains(x) implies !bytes.contains(x) by {
        let i = choose|i: int| 0 <= i < specials.len() && specials[i].1 == x;
        assert(BASE_VOCAB_SIZE <= specials[i].1);
    }
    assert forall|j: int| 0 <= j < l.len() implies !r.contains((#[trigger] l[j]).0.0) && !r.contains(l[j].0.1)
        && !r.contains(l[j].1) && BASE_VOCAB_SIZE <= l[j].1 < vocab_size by {
        assert(l[j].1 == ids[j]);
        if !bytes.contains(l[j].0.0) {
            let k = choose|k: int| 0 <= k < j && ids[k] == l[j].0.0;
            assert(!r.contains(ids[k]));
        }
        if !bytes.contains(l[j].0.1) {
            let k = choose|k: int| 0 <= k < j && ids[k] == l[j].0.1;
            assert(!r.contains(ids[k]));
        }
    }
    assert forall|j: int, k: int| 0 <= j < k < l.len() implies (#[trigger] l[j]).1 < (#[trigger] l[k]).1 by {
        assert(l[j].1 == ids[j]);
        assert(l[k].1 == ids[k]);
    }
}

/// Counting over all sequences but `i`, plus the weighted count of `i`.
pub proof fn lemma_total_count_remove(ws: model::Weighted, i: int, p: (TokenId, TokenId))
    requires
        0 <= i < ws.len(),
    ensures
        model::total_count(ws, p) == model::total_count(ws.remove(i), p) + ws[i].1 as nat * model::num_adj(ws[i].0, p),
    decreases ws.len(),
{
    if i < ws.len() - 1 {
        assert(ws.remove(i).drop_last() =~= ws.drop_last().remove(i));
        assert(ws.remove(i).last() == ws.last());
        lemma_total_count_remove(ws.drop_last(), i, p);
    } else {
        assert(ws.remove(i) =~= ws.drop_last());
    }
}

/// Weighted sequences with the same elements have the same pair counts.
pub proof fn lemma_total_count_perm(ws1: model::Weighted, ws2: model::Weighted, p: (TokenId, TokenId))
    requires
        ws1.to_multiset() == ws2.to_multiset(),
    ensures
        model::total_count(ws1, p) == model::total_count(ws2, p),
    decreases ws1.len(),
{
    broadcast use vstd::seq_lib::group_to_multiset_ensures, vstd::multiset::group_multiset_axioms;
    if ws1.len() == 0 {
        assert(ws1.to_multiset().len() == 0);
        assert(ws2.to_multiset().len() == ws2.len());
    } else {
        let x = ws1.last();
        assert(ws1.to_multiset().count(x) > 0) by {
            assert(ws1[ws1.len() - 1] == x);
        }
        assert(ws2.contains(x));
        let i = choose|i: int| 0 <= i < ws2.len() && ws2[i] == x;
        assert(ws1.remove(ws1.len() - 1) =~= ws1.drop_last());
        assert(ws1.drop_last().to_multiset() == ws2.remove(i).to_multiset());
        lemma_total_count_perm(ws1.drop_last(), ws2.remove(i), p);
        lemma_total_count_remove(ws2, i, p);
    }
}

/// Merging a pair everywhere keeps two weighted sequences with the same
/// elements alike.
pub proof fn lemma_merge_ws_perm(ws1: model::Weighted, ws2: model::Weighted, p: (TokenId, TokenId), m: TokenId)
    requires
        ws1.to_multiset() == ws2.to_multiset(),
    ensures
        model::merge_ws(ws1, p, m).to_multiset() == model::merge_ws(ws2, p, m).to_multiset(),
    decreases ws1.len(),
{
    broadcast use vstd::seq_lib::group_to_multiset_ensures, vstd::multiset::group_multiset_axioms;
    let g1 = model::merge_ws(ws1, p, m);
    let g2 = model::merge_ws(ws2, p, m);
    if ws1.len() == 0 {
        assert(ws1.to_multiset().len() == 0);
        assert(ws2.to_multiset().len() == ws2.len());
        assert(g1 =~= g2);
    } else {
        let x = ws1.last();
        assert(ws1.to_multiset().count(x) > 0) by {
            assert(ws1[ws1.len() - 1] == x);
        }
        assert(ws2.contains(x));
        let i = choose|i: int| 0 <= i < ws2.len() && ws2[i] == x;
        assert(ws1.remove(ws1.len() - 1) =~= ws1.drop_last());
        assert(ws1.drop_last().to_multiset() == ws2.remove(i).to_multiset());
        lemma_merge_ws_perm(ws1.drop_last(), ws2.remove(i), p, m);
        let fx = (model::merge_all(x.0, p, m), x.1);
        assert(g1.remove(g1.len() - 1) =~= model::merge_ws(ws1.drop_last(), p, m));
        assert(g2.remove(i) =~= model::merge_ws(ws2.remove(i), p, m));
        assert(g1[g1.len() - 1] == fx);
        assert(g2[i] == fx);
        let r = g1.remove(g1.len() - 1).to_multiset();
        assert(g1.to_multiset().remove(fx) == r);
        assert(g2.to_multiset().remove(fx) == r);
        assert(g1.to_multiset().count(fx) > 0) by {
            assert(g1.contains(fx));
        }
        assert(g2.to_multiset().count(fx) > 0) by {
            assert(g2.contains(fx));
        }
        assert(g1.to_multiset() =~= r.insert(fx));
        assert(g2.to_multiset() =~= r.insert(fx));
    }
}

/// Training depends on the weighted chunks only, not on their order.
pub proof fn lemma_train_merges_perm(ws1: model::Weighted, ws2: model::Weighted, ids: Seq<TokenId>)
    requires
        ws1.to_multiset() == ws2.to_multiset(),
    ensures
        model::train_merges(ws1, ids) == model::train_merges(ws2, ids),
    decreases ids.len(),
{
    assert forall|q: (TokenId, TokenId)|
        #![trigger model::total_count(ws1, q)]
        #![trigger model::total_count(ws2, q)]
        model::total_count(ws1, q) == model::total_count(ws2, q) by {
        lemma_total_count_perm(ws1, ws2, q);
    }
    if ids.len() > 0 && model::has_pair(ws1) {
        let q = choose|q: (TokenId, TokenId)| #[trigger] model::total_count(ws1, q) > 0;
        assert(model::total_count(ws2, q) > 0);
        model::lemma_best_pair_exists(ws1);
        let p = model::best_pair(ws1);
        assert(model::is_best_pair(ws2, p));
        model::lemma_best_pair_unique(ws2, p);
        lemma_merge_ws_perm(ws1, ws2, p, ids[0]);
        lemma_train_merges_perm(model::merge_ws(ws1, p, ids[0]), model::merge_ws(ws2, p, ids[0]), ids.drop_first());
    } else if ids.len() > 0 {
        assert(!model::has_pair(ws2)) by {
            if model::has_pair(ws2) {
                let q = choose|q: (TokenId, TokenId)| #[trigger] model::total_count(ws2, q) > 0;
                assert(model::total_count(ws1, q) > 0);
            }
        }
    }
}

/// A sequence without repeats holds each element once.
proof fn lemma_no_dup_count<A>(s: Seq<A>, x: A)
    requires
        s.no_duplicates(),
    ensures
        s.to_multiset().count(x) == if s.contains(x) { 1nat } else { 0nat },
    decreases s.len(),
{
    broadcast use vstd::seq_lib::group_to_multiset_ensures, vstd::multiset::group_multiset_axioms;
    if s.len() > 0 {
        let d = s.drop_last();
        assert(d.no_duplicates()) by {
            assert forall|i: int, j: int| 0 <= i < d.len() && 0 <= j < d.len() && i != j implies d[i] != d[j] by {
                assert(d[i] == s[i] && d[j] == s[j]);
            }
        }
        lemma_no_dup_count(d, x);
        assert(d.push(s.last()) =~= s);
        if d.contains(x) && x == s.last() {
            let i = choose|i: int| 0 <= i < d.len() && d[i] == x;
            assert(s[i] == s[s.len() - 1]);
        }
        if s.contains(x) && x != s.last() {
            let i = choose|i: int| 0 <= i < s.len() && s[i] == x;
            assert(d[i] == x);
        }
    }
}

/// Two listings of the same corpus chunks hold the same weighted chunks.
proof fn lemma_listings_same_elements(es1: Seq<(Seq<u8>, u32)>, es2: Seq<(Seq<u8>, u32)>, cs: Seq<Seq<u8>>)
    requires
        lists(es1, cs),
        lists(es2, cs),
    ensures
        chunks_weighted(es1).to_multiset() == chunks_weighted(es2).to_multiset(),
{
    broadcast use vstd::seq_lib::group_to_multiset_ensures, vstd::multiset::group_multiset_axioms;
    let w1 = chunks_weighted(es1);
    let w2 = chunks_weighted(es2);
    assert forall|a: Seq<u8>, b: Seq<u8>| bytes_tokens(a) == bytes_tokens(b) implies a == b by {
        assert(a.len() == bytes_tokens(a).len());
        assert forall|k: int| 0 <= k < a.len() implies a[k] == b[k] by {
            assert(bytes_tokens(a)[k] == bytes_tokens(b)[k]);
        }
        assert(a =~= b);
    }
    assert(w1.no_duplicates()) by {
        assert forall|i: int, j: int| 0 <= i < w1.len() && 0 <= j < w1.len() && i != j implies w1[i] != w1[j] by {
            if i < j {
                assert(es1[i].0 != es1[j].0);
            } else {
                assert(es1[j].0 != es1[i].0);
            }
        }
    }
    assert(w2.no_duplicates()) by {
        assert forall|i: int, j: int| 0 <= i < w2.len() && 0 <= j < w2.len() && i != j implies w2[i] != w2[j] by {
            if i < j {
                assert(es2[i].0 != es2[j].0);
            } else {
                assert(es2[j].0 != es2[i].0);
            }
        }
    }
    assert forall|e: (Seq<TokenId>, u32)| w1.contains(e) implies w2.contains(e) by {
        let i = choose|i: int| 0 <= i < w1.len() && w1[i] == e;
        assert(cs.to_multiset().count(es1[i].0) > 0);
        assert(cs.contains(es1[i].0));
        let j = choose|j: int| 0 <= j < es2.len() && es2[j].0 == es1[i].0;
        assert(w2[j] == e);
    }
    assert forall|e: (Seq<TokenId>, u32)| w2.contains(e) implies w1.contains(e) by {
        let i = choose|i: int| 0 <= i < w2.len() && w2[i] == e;
        assert(cs.to_multiset().count(es2[i].0) > 0);
        assert(cs.contains(es2[i].0));
        let j = choose|j: int| 0 <= j < es1.len() && es1[j].0 == es2[i].0;
        assert(w1[j] == e);
    }
    assert forall|e: (Seq<TokenId>, u32)| w1.to_multiset().count(e) == w2.to_multiset().count(e) by {
        lemma_no_dup_count(w1, e);
        lemma_no_dup_count(w2, e);
    }
    assert(w1.to_multiset() =~= w2.to_multiset());
}

/// Training is deterministic: any two listings of the same corpus chunks,
/// whatever order the chunk counter hands them out in, learn the same merges.
pub proof fn law_training_order_independent(
    es1: Seq<(Seq<u8>, u32)>,
    es2: Seq<(Seq<u8>, u32)>,
    cs: Seq<Seq<u8>>,
    vocab_size: TokenId,
    specials: Seq<(Seq<char>, TokenId)>,
)
    requires
        lists(es1, cs),
        lists(es2, cs),
    ensures
        learned_merges(es1, vocab_size, specials) == learned_merges(es2, vocab_size, specials),
{
    lemma_listings_same_elements(es1, es2, cs);
    lemma_train_merges_perm(chunks_weighted(es1), chunks_weighted(es2),
        model::merge_ids(BASE_VOCAB_SIZE as int, vocab_size as int, special_ids(specials)));
}


/// In a list with distinct texts, the table maps each text to its own id.
proof fn lemma_table_entry(s: Seq<(Seq<char>, TokenId)>, j: int)
    requires
        keys_unique(s),
        0 <= j < s.len(),
    ensures
        table_of(s).contains_key(s[j].0),
        table_of(s)[s[j].0] == s[j].1,
{
    let k = s[j].0;
    assert(table_of(s).contains_key(k));
    let x = choose|x: int| 0 <= x < s.len() && s[x].0 == k;
    if x < j {
        assert(s[x].0 != s[j].0);
    } else if j < x {
        assert(s[j].0 != s[x].0);
    }
}

/// An id of one list with the same table as another is an id of the other,
/// for the same text.
proof fn lemma_same_table_entry(s1: Seq<(Seq<char>, TokenId)>, s2: Seq<(Seq<char>, TokenId)>, j: int) -> (i: int)
    requires
        keys_unique(s1),
        keys_unique(s2),
        table_of(s1) == table_of(s2),
        0 <= j < s2.len(),
    ensures
        0 <= i < s1.len(),
        s1[i] == s2[j],
{
    let k = s2[j].0;
    lemma_table_entry(s2, j);
    assert(table_of(s1).contains_key(k));
    let i = choose|x: int| 0 <= x < s1.len() && s1[x].0 == k;
    lemma_table_entry(s1, i);
    i
}

/// Two lists of special tokens with distinct texts and the same table have
/// the same ids.
proof fn lemma_same_table_ids(s1: Seq<(Seq<char>, TokenId)>, s2: Seq<(Seq<char>, TokenId)>)
    requires
        keys_unique(s1),
        keys_unique(s2),
        table_of(s1) == table_of(s2),
    ensures
        special_ids(s1) == special_ids(s2),
{
    assert forall|id: TokenId| special_ids(s1).contains(id) == special_ids(s2).contains(id) by {
        if special_ids(s1).contains(id) {
            let i = choose|i: int| 0 <= i < s1.len() && s1[i].1 == id;
            let j = lemma_same_table_entry(s2, s1, i);
            assert(s2[j].1 == id);
        }
        if special_ids(s2).contains(id) {
            let j = choose|j: int| 0 <= j < s2.len() && s2[j].1 == id;
            let i = lemma_same_table_entry(s1, s2, j);
            assert(s1[i].1 == id);
        }
    }
    assert(special_ids(s1) =~= special_ids(s2));
}

/// Two sound vocabularies for special tokens with the same table agree on the
/// bytes and the special tokens, which is all that retraining keeps.
proof fn lemma_reset_vocab_same(v1: Map<TokenId, Seq<u8>>, v2: Map<TokenId, Seq<u8>>,
    mm1: Map<(TokenId, TokenId), TokenId>, mm2: Map<(TokenId, TokenId), TokenId>,
    s1: Seq<(Seq<char>, TokenId)>, s2: Seq<(Seq<char>, TokenId)>)
    requires
        vocab_sound(v1, mm1, s1),
        vocab_sound(v2, mm2, s2),
        keys_unique(s1),
        keys_unique(s2),
        table_of(s1) == table_of(s2),
    ensures
        reset_vocab(v1, s1) == reset_vocab(v2, s2),
{
    lemma_same_table_ids(s1, s2);
    let keep = Set::new(|id: TokenId| id < BASE_VOCAB_SIZE || special_ids(s1).contains(id));
    assert forall|id: TokenId| keep.contains(id) implies v1.contains_key(id) && v2.contains_key(id) && v1[id] == v2[id] by {
        if id >= BASE_VOCAB_SIZE {
            assert(special_ids(s2).contains(id));
            let j = choose|j: int| 0 <= j < s2.len() && s2[j].1 == id;
            let i = lemma_same_table_entry(s1, s2, j);
            assert(s1[i].1 == id);
        }
    }
    assert(reset_vocab(v1, s1) =~= reset_vocab(v2, s2));
}

/// Two sorted orders of the same set of special-token texts are equal.
proof fn lemma_priority_order_unique(o1: Seq<Seq<char>>, o2: Seq<Seq<char>>)
    requires
        priority_sorted(o1),
        priority_sorted(o2),
        o1.no_duplicates(),
        o2.no_duplicates(),
        o1.to_set() == o2.to_set(),
    ensures
        o1 == o2,
    decreases o1.len(),
{
    if o1.len() == 0 {
        if o2.len() > 0 {
            assert(o2.to_set().contains(o2[0]));
        }
        assert(o1 =~= o2);
    } else {
        assert(o1.to_set().contains(o1[0]));
        if o2.len() == 0 {
            assert(!o2.to_set().contains(o1[0]));
        }
        let a = o1[0];
        let b = o2[0];
        assert(o2.to_set().contains(b));
        if a != b {
            let i = choose|i: int| 0 <= i < o1.len() && o1[i] == b;
            let j = choose|j: int| 0 <= j < o2.len() && o2[j] == a;
            assert(i > 0 && j > 0);
            assert(token_before(encode_utf8(o1[0]), encode_utf8(o1[i])));
            assert(token_before(encode_utf8(o2[0]), encode_utf8(o2[j])));
            lemma_before_order(encode_utf8(a), encode_utf8(b), encode_utf8(a));
            assert(false);
        }
        let r1 = o1.drop_first();
        let r2 = o2.drop_first();
        assert forall|x: Seq<char>| r1.to_set().contains(x) == r2.to_set().contains(x) by {
            if r1.to_set().contains(x) {
                let i = choose|i: int| 0 <= i < r1.len() && r1[i] == x;
                assert(o1[i + 1] == x);
                assert(x != a);
                assert(o2.to_set().contains(x));
                let j = choose|j: int| 0 <= j < o2.len() && o2[j] == x;
                assert(j > 0);
                assert(r2[j - 1] == x);
            }
            if r2.to_set().contains(x) {
                let j = choose|j: int| 0 <= j < r2.len() && r2[j] == x;
                assert(o2[j + 1] == x);
                assert(x != b);
                assert(o1.to_set().contains(x));
                let i = choose|i: int| 0 <= i < o1.len() && o1[i] == x;
                assert(i > 0);
                assert(r1[i - 1] == x);
            }
        }
        assert(r1.to_set() =~= r2.to_set());
        assert forall|i: int, j: int| 0 <= i < j < r1.len() implies
            token_before(encode_utf8(#[trigger] r1[i]), encode_utf8(#[trigger] r1[j])) by {
            assert(r1[i] == o1[i + 1] && r1[j] == o1[j + 1]);
        }
        assert forall|i: int, j: int| 0 <= i < j < r2.len() implies
            token_before(encode_utf8(#[trigger] r2[i]), encode_utf8(#[trigger] r2[j])) by {
            assert(r2[i] == o2[i + 1] && r2[j] == o2[j + 1]);
        }
        lemma_priority_order_unique(r1, r2);
        assert(o1 =~= o2) by {
            assert forall|i: int| 0 <= i < o1.len() implies o1[i] == o2[i] by {
                if i > 0 {
                    assert(o1[i] == r1[i - 1]);
                    assert(o2[i] == r2[i - 1]);
                }
            }
        }
    }
}

/// The special-token pattern is determined by the special tokens' texts.
pub proof fn lemma_special_pattern_unique(keys: Set<Seq<char>>, p1: Option<Seq<char>>, p2: Option<Seq<char>>)
    requires
        is_special_pattern(keys, p1),
        is_special_pattern(keys, p2),
    ensures
        p1 == p2,
{
    if keys != Set::<Seq<char>>::empty() {
        let o1 = choose|order: Seq<Seq<char>>| {
            &&& priority_sorted(order)
            &&& order.no_duplicates()
            &&& order.to_set() == keys
            &&& p1 == Some(alternation(order))
        };
        let o2 = choose|order: Seq<Seq<char>>| {
            &&& priority_sorted(order)
            &&& order.no_duplicates()
            &&& order.to_set() == keys
            &&& p2 == Some(alternation(order))
        };
        lemma_priority_order_unique(o1, o2);
    }
}

/// Retraining replaces what was learned before: two models with the same
/// split pattern and the same special tokens (as `new` configures them),
/// whatever either learned earlier, end with the same merges and the same
/// vocabulary once both train successfully on the same documents up to the
/// same vocabulary size.
pub proof fn law_retrain_same_model(old1: BPE, new1: BPE, old2: BPE, new2: BPE, vocab_size: TokenId, docs: Seq<Seq<char>>)
    requires
        old1.wf(),
        old2.wf(),
        old1.split_pattern() == old2.split_pattern(),
        keys_unique(old1.specials()),
        keys_unique(old2.specials()),
        table_of(old1.specials()) == table_of(old2.specials()),
        is_special_pattern(table_of(old1.specials()).dom(), old1.special_pattern()),
        is_special_pattern(table_of(old2.specials()).dom(), old2.special_pattern()),
        trained(old1, new1, vocab_size, docs),
        trained(old2, new2, vocab_size, docs),
    ensures
        new1.merges() == new2.merges(),
        new1.vocab_bytes() == new2.vocab_bytes(),
{
    old1.reveal_model();
    old2.reveal_model();
    let s1 = old1.specials();
    let s2 = old2.specials();
    lemma_special_pattern_unique(table_of(s1).dom(), old1.special_pattern(), old2.special_pattern());
    lemma_same_table_ids(s1, s2);
    let cs = crate::corpus::docs_chunks(old1.split_pattern(), old1.special_pattern(), docs).unwrap();
    let es1 = choose|es: Seq<(Seq<u8>, u32)>| #[trigger] lists(es, cs) && trained_on(old1, new1, vocab_size, es);
    let es2 = choose|es: Seq<(Seq<u8>, u32)>| #[trigger] lists(es, cs) && trained_on(old2, new2, vocab_size, es);
    law_training_order_independent(es1, es2, cs, vocab_size, s1);
    assert(learned_merges(es2, vocab_size, s1) == learned_merges(es2, vocab_size, s2));
    lemma_reset_vocab_same(old1.vocab_bytes(), old2.vocab_bytes(), old1.merges(), old2.merges(), s1, s2);
}

/// Byte spans that cover `0..n` back to back, from left to right.
pub open spec fn spans_tile(sp: Seq<(usize, usize)>, n: int) -> bool {
    &&& sp.len() == 0 ==> n == 0
    &&& sp.len() > 0 ==> sp[0].0 == 0 && sp[sp.len() - 1].1 == n
    &&& forall|i: int| 0 <= i < sp.len() ==> #[trigger] sp[i].0 <= sp[i].1
    &&& forall|i: int| 0 < i < sp.len() ==> #[trigger] sp[i].0 == sp[i - 1].1
}

/// Every stretch of `bytes` that the split pattern searches is covered by
/// its matches.
pub open spec fn split_covers(split: Seq<char>, bytes: Seq<u8>) -> bool {
    forall|start: int, end: int| 0 <= start <= end <= bytes.len() ==>
        (#[trigger] regex_spans(split, haystack(bytes, start, end)) matches Some(sp) ==> spans_tile(sp, end - start))
}

/// The bytes of the pieces of two piece lists, one after the other.
proof fn lemma_piece_bytes_append(specials: Seq<(Seq<char>, TokenId)>, a: Seq<Piece>, b: Seq<Piece>)
    ensures
        piece_bytes(specials, a + b) == piece_bytes(specials, a) + piece_bytes(specials, b),
    decreases b.len(),
{
    if b.len() == 0 {
        assert(a + b =~= a);
        assert(piece_bytes(specials, a) + piece_bytes(specials, b) =~= piece_bytes(specials, a));
    } else {
        assert((a + b).drop_last() =~= a + b.drop_last());
        assert((a + b).last() == b.last());
        lemma_piece_bytes_append(specials, a, b.drop_last());
        let (is_special, x) = b.last();
        let tail = if !is_special || special_lookup(specials, x) is Some { x } else { seq![] };
        assert(piece_bytes(specials, a + b) =~= piece_bytes(specials, a) + piece_bytes(specials, b.drop_last()) + tail);
    }
}

/// The first `k` chunks of tiling spans give the bytes up to the end of the
/// `k`-th span.
proof fn lemma_chunk_bytes(specials: Seq<(Seq<char>, TokenId)>, bytes: Seq<u8>, start: int, n: int, sp: Seq<(usize, usize)>, k: int)
    requires
        0 <= start,
        start + n <= bytes.len(),
        spans_tile(sp, n),
        0 <= k <= sp.len(),
    ensures
        piece_bytes(specials, Seq::new(k as nat, |i: int| (false, bytes.subrange(start + sp[i].0, start + sp[i].1))))
            == bytes.subrange(start, start + if k == 0 { 0 } else { sp[k - 1].1 as int }),
    decreases k,
{
    let ps = Seq::new(k as nat, |i: int| (false, bytes.subrange(start + sp[i].0, start + sp[i].1)));
    if k == 0 {
        assert(bytes.subrange(start, start) =~= Seq::<u8>::empty());
    } else {
        lemma_chunk_bytes(specials, bytes, start, n, sp, k - 1);
        assert(ps.drop_last() =~= Seq::new((k - 1) as nat, |i: int| (false, bytes.subrange(start + sp[i].0, start + sp[i].1))));
        // every span ends within the stretch
        lemma_span_end(sp, n, k - 1);
        let prev_end: int = if k - 1 == 0 { 0 } else { sp[k - 2].1 as int };
        assert(sp[k - 1].0 == prev_end);
        assert(bytes.subrange(start, start + sp[k - 1].1) =~= bytes.subrange(start, start + prev_end)
            + bytes.subrange(start + sp[k - 1].0, start + sp[k - 1].1));
    }
}

/// Tiling spans end no later than the stretch.
proof fn lemma_span_end(sp: Seq<(usize, usize)>, n: int, k: int)
    requires
        spans_tile(sp, n),
        0 <= k < sp.len(),
    ensures
        sp[k].1 <= n,
        0 <= sp[k].0,
    decreases sp.len() - k,
{
    if k + 1 < sp.len() {
        lemma_span_end(sp, n, k + 1);
        assert(sp[k + 1].0 == sp[k].1);
        assert(sp[k + 1].0 <= sp[k + 1].1);
    }
}

/// Chunks of a covered stretch give back the stretch.
proof fn lemma_chunk_pieces_bytes(split: Seq<char>, specials: Seq<(Seq<char>, TokenId)>, bytes: Seq<u8>, start: int, end: int)
    requires
        0 <= start <= end <= bytes.len(),
        split_covers(split, bytes),
        chunk_pieces(split, bytes, start, end) is Some,
    ensures
        piece_bytes(specials, chunk_pieces(split, bytes, start, end).unwrap()) == bytes.subrange(start, end),
{
    let sp = regex_spans(split, haystack(bytes, start, end)).unwrap();
    assert(spans_tile(sp, end - start));
    lemma_chunk_bytes(specials, bytes, start, end - start, sp, sp.len() as int);
    assert(chunk_pieces(split, bytes, start, end).unwrap()
        =~= Seq::new(sp.len(), |i: int| (false, bytes.subrange(start + sp[i].0, start + sp[i].1))));
}

/// The pieces from `cursor` on give back the rest of the text when the chunks
/// cover it and every special-token match is a configured special token.
proof fn lemma_segment_pieces_bytes(
    split: Seq<char>,
    specials: Seq<(Seq<char>, TokenId)>,
    bytes: Seq<u8>,
    spans: Seq<(usize, usize)>,
    i: int,
    cursor: int,
)
    requires
        0 <= i,
        0 <= cursor <= bytes.len(),
        i < spans.len() ==> cursor <= spans[i].0,
        spans_wf(spans, bytes),
        forall|j: int| 0 <= j < spans.len() ==> #[trigger] special_lookup(specials, bytes.subrange(spans[j].0 as int, spans[j].1 as int)) is Some,
        split_covers(split, bytes),
        segment_pieces(split, bytes, spans, i, cursor) is Some,
    ensures
        piece_bytes(specials, segment_pieces(split, bytes, spans, i, cursor).unwrap()) == bytes.subrange(cursor, bytes.len() as int),
    decreases spans.len() - i,
{
    if i >= spans.len() {
        lemma_chunk_pieces_bytes(split, specials, bytes, cursor, bytes.len() as int);
    } else {
        let s0 = spans[i].0 as int;
        let s1 = spans[i].1 as int;
        let c = chunk_pieces(split, bytes, cursor, s0).unwrap();
        let rest = segment_pieces(split, bytes, spans, i + 1, s1).unwrap();
        let m = seq![(true, bytes.subrange(s0, s1))];
        if i + 1 < spans.len() {
            assert(spans[i].1 <= spans[i + 1].0);
        }
        lemma_chunk_pieces_bytes(split, specials, bytes, cursor, s0);
        lemma_segment_pieces_bytes(split, specials, bytes, spans, i + 1, s1);
        lemma_piece_bytes_append(specials, c + m, rest);
        lemma_piece_bytes_append(specials, c, m);
        assert(m.drop_last() =~= Seq::<Piece>::empty());
        assert(piece_bytes(specials, Seq::<Piece>::empty()) == Seq::<u8>::empty());
        assert(m.last() == (true, bytes.subrange(s0, s1)));
        assert(special_lookup(specials, bytes.subrange(s0, s1)) is Some);
        assert(piece_bytes(specials, m) =~= bytes.subrange(s0, s1));
        assert(bytes.subrange(cursor, bytes.len() as int) =~= bytes.subrange(cursor, s0) + bytes.subrange(s0, s1)
            + bytes.subrange(s1, bytes.len() as int));
    }
}

/// Decoding undoes encoding: when the split pattern's matches cover every
/// stretch of the text they are run on (as `(?s).+` and the default pattern
/// do) and every special-token match is a configured special token, the
/// bytes decoded from the encoding of a text are the text's bytes.
pub proof fn law_decode_encode_text(b: BPE, text: Seq<char>)
    requires
        b.wf(),
        encode_doc(b.merges(), b.split_pattern(), b.special_pattern(), b.specials(), text) is Some,
        split_covers(b.split_pattern(), encode_utf8(text)),
        b.special_pattern() matches Some(sp) ==> (regex_spans(sp, haystack(encode_utf8(text), 0, encode_utf8(text).len() as int))
            matches Some(spans) ==> spans_wf(spans, encode_utf8(text)) && forall|j: int| 0 <= j < spans.len() ==>
                #[trigger] special_lookup(b.specials(), encode_utf8(text).subrange(spans[j].0 as int, spans[j].1 as int)) is Some),
    ensures
        decode_ids(b.vocab_bytes(), encode_doc(b.merges(), b.split_pattern(), b.special_pattern(), b.specials(), text).unwrap())
            == encode_utf8(text),
{
    law_decode_encode(b, text);
    let bytes = encode_utf8(text);
    match b.special_pattern() {
        None => {
            lemma_chunk_pieces_bytes(b.split_pattern(), b.specials(), bytes, 0, bytes.len() as int);
        },
        Some(sp) => {
            let spans = regex_spans(sp, haystack(bytes, 0, bytes.len() as int)).unwrap();
            if spans.len() > 0 {
                assert(spans[0].0 <= spans[0].1);
            }
            lemma_segment_pieces_bytes(b.split_pattern(), b.specials(), bytes, spans, 0, 0);
        },
    }
    assert(bytes.subrange(0, bytes.len() as int) =~= bytes);
}


// ---------------------------------------------------------------------------
// Merge priority, special-token order and lookup, training chunks
// ---------------------------------------------------------------------------

/// Encoding applies, at each step, the learned merge with the smallest merged
/// id among all adjacent pairs that have one (the leftmost of equal ids):
/// merging that position first leaves the encoding unchanged.
pub proof fn law_encode_lowest_id_first(mm: Map<(TokenId, TokenId), TokenId>, t: Seq<TokenId>, j: int)
    requires
        0 <= j && j + 1 < t.len(),
        mm.contains_key((t[j], t[j + 1])),
        forall|i: int| 0 <= i && i + 1 < t.len() && #[trigger] mm.contains_key((t[i], t[i + 1])) ==>
            mm[(t[j], t[j + 1])] < mm[(t[i], t[i + 1])] || (mm[(t[j], t[j + 1])] == mm[(t[i], t[i + 1])] && j <= i),
    ensures
        encode_chunk(mm, t) == encode_chunk(mm, t.update(j, mm[(t[j], t[j + 1])]).remove(j + 1)),
{
    assert forall|i: int| #[trigger] mergeable(mm, t, i) implies
        mm[pair_of(t, j)] < mm[pair_of(t, i)] || (mm[pair_of(t, j)] == mm[pair_of(t, i)] && j <= i) by {
        assert(mm.contains_key((t[i], t[i + 1])));
    }
    assert(is_lowest_merge(mm, t, j));
    let k = choose|k: int| is_lowest_merge(mm, t, k);
    model::lemma_lowest_merge_unique(mm, t, j, k);
}

/// Of two learned merges that overlap in a three-token chunk `[x, y, z]`, the
/// one with the smaller id (learned earlier) wins: the chunk encodes to the
/// merged token of `(x, y)` followed by `z` when nothing merges further.
pub proof fn law_encode_earlier_merge_wins(mm: Map<(TokenId, TokenId), TokenId>, x: TokenId, y: TokenId, z: TokenId)
    requires
        mm.contains_key((x, y)),
        mm.contains_key((y, z)) ==> mm[(x, y)] < mm[(y, z)],
        !mm.contains_key((mm[(x, y)], z)),
    ensures
        encode_chunk(mm, seq![x, y, z]) == seq![mm[(x, y)], z],
{
    let t = seq![x, y, z];
    assert(t[0] == x && t[1] == y && t[2] == z);
    law_encode_lowest_id_first(mm, t, 0);
    let t2 = t.update(0, mm[(x, y)]).remove(1);
    assert(t2 =~= seq![mm[(x, y)], z]);
    assert(!exists|k: int| is_lowest_merge(mm, t2, k)) by {
        if exists|k: int| is_lowest_merge(mm, t2, k) {
            let k = choose|k: int| is_lowest_merge(mm, t2, k);
            assert(k == 0);
            assert(pair_of(t2, 0) == (mm[(x, y)], z));
        }
    }
    assert(encode_chunk(mm, t2) == t2);
}

/// The special-token pattern tries longer tokens before shorter ones: in the
/// order of its alternation, byte lengths never increase, so a token that is
/// a prefix of another is tried after it.
pub proof fn law_special_pattern_longest_first(keys: Set<Seq<char>>, p: Seq<char>)
    requires
        is_special_pattern(keys, Some(p)),
    ensures
        exists|order: Seq<Seq<char>>| {
            &&& p == alternation(order)
            &&& order.to_set() == keys
            &&& order.no_duplicates()
            &&& forall|i: int, j: int| 0 <= i < j < order.len() ==>
                    encode_utf8(#[trigger] order[i]).len() >= encode_utf8(#[trigger] order[j]).len()
        },
{
    if keys == Set::<Seq<char>>::empty() {
        assert(false);
    }
    let order = choose|order: Seq<Seq<char>>| {
        &&& priority_sorted(order)
        &&& order.no_duplicates()
        &&& order.to_set() == keys
        &&& Some(p) == Some(alternation(order))
    };
    assert forall|i: int, j: int| 0 <= i < j < order.len() implies
        encode_utf8(#[trigger] order[i]).len() >= encode_utf8(#[trigger] order[j]).len() by {
        assert(token_before(encode_utf8(order[i]), encode_utf8(order[j])));
    }
}

/// Every configured special token is found by its own text, with its own id,
/// when the texts are distinct.
pub proof fn law_special_token_found_by_text(specials: Seq<(Seq<char>, TokenId)>, i: int)
    requires
        keys_unique(specials),
        0 <= i < specials.len(),
    ensures
        special_lookup(specials, encode_utf8(specials[i].0)) == Some(specials[i].1),
    decreases specials.len(),
{
    if i > 0 {
        assert(specials[0].0 != specials[i].0);
        if encode_utf8(specials[0].0) == encode_utf8(specials[i].0) {
            vstd::utf8::encode_utf8_decode_utf8(specials[0].0);
            vstd::utf8::encode_utf8_decode_utf8(specials[i].0);
        }
        let rest = specials.drop_first();
        assert(rest[i - 1] == specials[i]);
        assert forall|a: int, b: int| 0 <= a < b < rest.len() implies (#[trigger] rest[a]).0 != (#[trigger] rest[b]).0 by {
            assert(rest[a] == specials[a + 1] && rest[b] == specials[b + 1]);
        }
        law_special_token_found_by_text(rest, i - 1);
    }
}

/// The chunk pieces of a piece list, in order: the bytes of the pieces that
/// are not special-token matches.
pub proof fn law_piece_chunks_skip_specials(ps: Seq<Piece>)
    ensures
        piece_chunks(ps) == ps.filter(|p: Piece| !p.0).map_values(|p: Piece| p.1),
    decreases ps.len(),
{
    if ps.len() > 0 {
        law_piece_chunks_skip_specials(ps.drop_last());
        assert(ps =~= ps.drop_last().push(ps.last()));
        ps.drop_last().lemma_filter_push(ps.last(), |p: Piece| !p.0);
        let f = ps.drop_last().filter(|p: Piece| !p.0);
        if !ps.last().0 {
            assert(f.push(ps.last()).map_values(|p: Piece| p.1) =~= f.map_values(|p: Piece| p.1).push(ps.last().1));
        }
    } else {
        assert(ps.filter(|p: Piece| !p.0) =~= Seq::<Piece>::empty());
        assert(ps.filter(|p: Piece| !p.0).map_values(|p: Piece| p.1) =~= Seq::<Seq<u8>>::empty());
    }
}

/// Training counts only the split pattern's chunks of each document, in
/// document order: special-token matches never contribute bytes. The corpus
/// is missing exactly when some document's regex search fails.
pub proof fn law_training_chunks_skip_specials(split: Seq<char>, special: Option<Seq<char>>, docs: Seq<Seq<char>>)
    ensures
        docs_chunks(split, special, docs) == if forall|d: int| 0 <= d < docs.len() ==> #[trigger] doc_pieces(split, special, docs[d]) is Some {
            Some(Seq::new(docs.len(), |d: int| doc_pieces(split, special, docs[d]).unwrap()
                .filter(|p: Piece| !p.0).map_values(|p: Piece| p.1)).flatten())
        } else {
            None::<Seq<Seq<u8>>>
        },
    decreases docs.len(),
{
    let f = |d: int| doc_pieces(split, special, docs[d]).unwrap().filter(|p: Piece| !p.0).map_values(|p: Piece| p.1);
    if docs.len() == 0 {
        assert(Seq::new(0, f) =~= Seq::<Seq<Seq<u8>>>::empty());
    } else {
        let pre = docs.drop_last();
        law_training_chunks_skip_specials(split, special, pre);
        let all_ok = forall|d: int| 0 <= d < docs.len() ==> #[trigger] doc_pieces(split, special, docs[d]) is Some;
        let pre_ok = forall|d: int| 0 <= d < pre.len() ==> #[trigger] doc_pieces(split, special, pre[d]) is Some;
        assert(pre_ok <== all_ok) by {
            if all_ok {
                assert forall|d: int| 0 <= d < pre.len() implies #[trigger] doc_pieces(split, special, pre[d]) is Some by {
                    assert(pre[d] == docs[d]);
                }
            }
        }
        if all_ok {
            assert(doc_pieces(split, special, docs[docs.len() - 1]) is Some);
            let g = |d: int| doc_pieces(split, special, pre[d]).unwrap().filter(|p: Piece| !p.0).map_values(|p: Piece| p.1);
            let last = doc_pieces(split, special, docs.last()).unwrap();
            law_piece_chunks_skip_specials(last);
            assert(Seq::new(docs.len(), f) =~= Seq::new(pre.len(), g).push(f(pre.len() as int)));
            Seq::new(pre.len(), g).lemma_flatten_push(f(pre.len() as int));
            assert(docs.last() == docs[pre.len() as int]);
        } else {
            let d = choose|d: int| 0 <= d < docs.len() && !(doc_pieces(split, special, docs[d]) is Some);
            if d < pre.len() {
                assert(pre[d] == docs[d]);
                assert(!pre_ok);
            } else {
                assert(docs.last() == docs[d]);
            }
        }
    }
}

} // verus!
