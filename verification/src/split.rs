//! Splitting documents into independently mergeable pieces: special-token
//! matches act as boundaries, and the split pattern cuts everything between
//! them into chunks.

use vstd::prelude::*;
use vstd::string::StringSliceAdditionalSpecFns;
use vstd::utf8::{encode_utf8, is_char_boundary, valid_utf8};
use crate::bpe::BPE;
use crate::error::BPEError;
use crate::merge_sequence::MergeSequence;
use crate::pattern::{compile, find_spans, haystack, regex_spans, spans_wf, CompiledPattern};
use crate::types::TokenId;

verus! {

broadcast use vstd::utf8::encode_utf8_valid_utf8, vstd::utf8::is_char_boundary_start_end_of_seq;

/// A piece of a document: a chunk of the split pattern (`false`) or a match of
/// the special-token pattern (`true`), with its bytes.
pub type Piece = (bool, Seq<u8>);

/// Token ids of raw bytes.
pub open spec fn bytes_tokens(b: Seq<u8>) -> Seq<TokenId> {
    b.map_values(|x: u8| x as TokenId)
}

/// The chunks that the split pattern finds in `bytes[start..end]`.
pub open spec fn chunk_pieces(split: Seq<char>, bytes: Seq<u8>, start: int, end: int) -> Option<Seq<Piece>> {
    match regex_spans(split, haystack(bytes, start, end)) {
        None => None,
        Some(sp) => Some(Seq::new(sp.len(), |i: int| (false, bytes.subrange(start + sp[i].0, start + sp[i].1)))),
    }
}

/// The pieces of `bytes[cursor..]`, where `spans[i..]` are the special-token
/// matches still ahead: the chunks before each match, then the match.
pub open spec fn segment_pieces(split: Seq<char>, bytes: Seq<u8>, spans: Seq<(usize, usize)>, i: int, cursor: int) -> Option<Seq<Piece>>
    decreases spans.len() - i,
{
    if i >= spans.len() || i < 0 {
        chunk_pieces(split, bytes, cursor, bytes.len() as int)
    } else {
        match chunk_pieces(split, bytes, cursor, spans[i].0 as int) {
            None => None,
            Some(c) => match segment_pieces(split, bytes, spans, i + 1, spans[i].1 as int) {
                None => None,
                Some(rest) => Some(c + seq![(true, bytes.subrange(spans[i].0 as int, spans[i].1 as int))] + rest),
            },
        }
    }
}

/// The pieces of a document, or `None` when a regex search fails.
pub open spec fn doc_pieces(split: Seq<char>, special: Option<Seq<char>>, text: Seq<char>) -> Option<Seq<Piece>> {
    let bytes = encode_utf8(text);
    match special {
        None => chunk_pieces(split, bytes, 0, bytes.len() as int),
        Some(sp) => match regex_spans(sp, haystack(bytes, 0, bytes.len() as int)) {
            None => None,
            Some(spans) => segment_pieces(split, bytes, spans, 0, 0),
        },
    }
}

/// The first configured special token whose text has these bytes.
pub open spec fn special_lookup(specials: Seq<(Seq<char>, TokenId)>, bytes: Seq<u8>) -> Option<TokenId>
    decreases specials.len(),
{
    if specials.len() == 0 {
        None
    } else if encode_utf8(specials[0].0) == bytes {
        Some(specials[0].1)
    } else {
        special_lookup(specials.drop_first(), bytes)
    }
}

/// The token sequences of the pieces: chunks as raw bytes, special-token
/// matches as their id (dropped when no special token has that text).
pub open spec fn piece_sequences(specials: Seq<(Seq<char>, TokenId)>, ps: Seq<Piece>) -> Seq<Seq<TokenId>>
    decreases ps.len(),
{
    if ps.len() == 0 {
        seq![]
    } else {
        let prev = piece_sequences(specials, ps.drop_last());
        let (is_special, b) = ps.last();
        if !is_special {
            prev.push(bytes_tokens(b))
        } else {
            match special_lookup(specials, b) {
                Some(id) => prev.push(seq![id]),
                None => prev,
            }
        }
    }
}

/// The bytes of the chunk pieces, special-token matches left out.
pub open spec fn piece_chunks(ps: Seq<Piece>) -> Seq<Seq<u8>>
    decreases ps.len(),
{
    if ps.len() == 0 {
        seq![]
    } else if !ps.last().0 {
        piece_chunks(ps.drop_last()).push(ps.last().1)
    } else {
        piece_chunks(ps.drop_last())
    }
}

/// Every chunk piece fits the `u32` slot indices of a merge sequence.
pub open spec fn pieces_fit(ps: Seq<Piece>) -> bool {
    forall|i: int| 0 <= i < ps.len() && !(#[trigger] ps[i]).0 ==> ps[i].1.len() <= u32::MAX + 1
}

/// View of the configured special tokens.
pub open spec fn specials_view(v: Seq<(String, TokenId)>) -> Seq<(Seq<char>, TokenId)> {
    v.map_values(|e: (String, TokenId)| (e.0@, e.1))
}

/// View of exec pieces.
pub open spec fn pieces_view(v: Seq<(bool, Vec<u8>)>) -> Seq<Piece> {
    v.map_values(|e: (bool, Vec<u8>)| (e.0, e.1@))
}

/// Whether two byte strings are equal.
fn bytes_equal(a: &[u8], b: &[u8]) -> (r: bool)
    ensures
        r == (a@ == b@),
{
    if a.len() != b.len() {
        return false;
    }
    let mut i: usize = 0;
    while i < a.len()
        invariant
            a@.len() == b@.len(),
            i <= a@.len(),
            forall|j: int| 0 <= j < i ==> a@[j] == b@[j],
        decreases a@.len() - i,
    {
        if a[i] != b[i] {
            return false;
        }
        i = i + 1;
    }
    proof {
        assert(a@ =~= b@);
    }
    true
}

impl BPE {
    /// The id of the special token whose text has `bytes`.
    fn lookup_special(&self, bytes: &[u8]) -> (r: Option<TokenId>)
        ensures
            r == special_lookup(specials_view(self.special_tokens@), bytes@),
    {
        let mut i: usize = 0;
        proof {
            assert(specials_view(self.special_tokens@).subrange(0, self.special_tokens@.len() as int)
                =~= specials_view(self.special_tokens@));
        }
        while i < self.special_tokens.len()
            invariant
                i <= self.special_tokens@.len(),
                special_lookup(specials_view(self.special_tokens@), bytes@)
                    == special_lookup(specials_view(self.special_tokens@).subrange(i as int, self.special_tokens@.len() as int), bytes@),
            decreases self.special_tokens@.len() - i,
        {
            let ghost rest = specials_view(self.special_tokens@).subrange(i as int, self.special_tokens@.len() as int);
            proof {
                assert(rest.drop_first() =~= specials_view(self.special_tokens@).subrange(i as int + 1, self.special_tokens@.len() as int));
                assert(rest[0] == (self.special_tokens@[i as int].0@, self.special_tokens@[i as int].1));
            }
            if bytes_equal(self.special_tokens[i].0.as_str().as_bytes(), bytes) {
                return Some(self.special_tokens[i].1);
            }
            i = i + 1;
        }
        None
    }

    /// Appends the chunks that the split pattern finds in `doc[start..end]`.
    fn push_chunks(split: &CompiledPattern, doc: &str, start: usize, end: usize, out: &mut Vec<(bool, Vec<u8>)>) -> (r: Result<(), BPEError>)
        requires
            start <= end <= doc.spec_bytes().len(),
            is_char_boundary(doc.spec_bytes(), start as int),
            is_char_boundary(doc.spec_bytes(), end as int),
        ensures
            r is Ok <==> chunk_pieces(split.pattern(), doc.spec_bytes(), start as int, end as int) is Some,
            r is Ok ==> pieces_view(final(out)@) == pieces_view(old(out)@)
                + chunk_pieces(split.pattern(), doc.spec_bytes(), start as int, end as int).unwrap(),
            r matches Err(e) ==> e is RegexEvaluation,
    {
        let bytes = doc.as_bytes();
        let spans = match find_spans(split, doc, start, end) {
            Ok(spans) => spans,
            Err(err) => return Err(BPEError::RegexEvaluation(err)),
        };
        let ghost sub = bytes@.subrange(start as int, end as int);
        let ghost expected = chunk_pieces(split.pattern(), bytes@, start as int, end as int).unwrap();
        let ghost out0 = pieces_view(out@);
        let mut i: usize = 0;
        while i < spans.len()
            invariant
                i <= spans@.len(),
                bytes@ == doc.spec_bytes(),
                start <= end <= bytes@.len(),
                spans_wf(spans@, sub),
                sub == bytes@.subrange(start as int, end as int),
                expected.len() == spans@.len(),
                forall|j: int| 0 <= j < spans@.len() ==> #[trigger] expected[j]
                    == (false, bytes@.subrange(start + spans@[j].0, start + spans@[j].1)),
                pieces_view(out@) == out0 + expected.take(i as int),
            decreases spans@.len() - i,
        {
            let (a, b) = spans[i];
            proof {
                assert(a <= b <= sub.len());
            }
            let piece = vstd::slice::slice_to_vec(vstd::slice::slice_subrange(bytes, start + a, start + b));
            let ghost out_before = out@;
            out.push((false, piece));
            proof {
                assert(spans@[i as int] == (a, b));
                assert(expected[i as int] == (false, piece@));
                assert(expected.take(i as int + 1) =~= expected.take(i as int).push(expected[i as int]));
                assert(pieces_view(out@) =~= pieces_view(out_before).push((false, piece@)));
                assert(pieces_view(out@) =~= out0 + expected.take(i as int + 1));
            }
            i = i + 1;
        }
        proof {
            assert(expected.take(spans@.len() as int) =~= expected);
        }
        Ok(())
    }

    /// Splits `doc` into pieces: regex chunks, and special-token matches.
    pub(crate) fn pieces(&self, doc: &str) -> (r: Result<Vec<(bool, Vec<u8>)>, BPEError>)
        requires
            self.wf(),
        ensures
            r is Ok <==> doc_pieces(self.split_pattern(), self.special_pattern(), doc@) is Some,
            r matches Ok(v) ==> pieces_view(v@) == doc_pieces(self.split_pattern(), self.special_pattern(), doc@).unwrap(),
            r matches Err(e) ==> e is RegexEvaluation,
    {
        proof {
            self.reveal_model();
        }
        let bytes = doc.as_bytes();
        let len = bytes.len();
        let ghost bs = bytes@;
        proof {
            assert(bs == encode_utf8(doc@));
            assert(valid_utf8(bs));
            assert(bs.subrange(0, len as int) =~= bs);
        }
        let split = match compile(self.split_pattern_source.as_str()) {
            Ok(p) => p,
            Err(err) => return Err(BPEError::RegexEvaluation(err)),
        };
        let mut out: Vec<(bool, Vec<u8>)> = Vec::new();
        match &self.special_split_pattern_source {
            None => {
                let res = Self::push_chunks(&split, doc, 0, len, &mut out);
                if res.is_err() {
                    return Err(res.unwrap_err());
                }
                proof {
                    assert(pieces_view(Seq::<(bool, Vec<u8>)>::empty()) =~= Seq::<Piece>::empty());
                    assert(pieces_view(out@) =~= doc_pieces(self.split_pattern(), self.special_pattern(), doc@).unwrap());
                }
                Ok(out)
            },
            Some(source) => {
                let special = match compile(source.as_str()) {
                    Ok(p) => p,
                    Err(err) => return Err(BPEError::RegexEvaluation(err)),
                };
                let spans = match find_spans(&special, doc, 0, len) {
                    Ok(spans) => spans,
                    Err(err) => return Err(BPEError::RegexEvaluation(err)),
                };
                let ghost sp = self.split_pattern_source@;
                let ghost whole = segment_pieces(sp, bs, spans@, 0, 0);
                let mut cursor: usize = 0;
                let mut i: usize = 0;
                proof {
                    assert(pieces_view(out@) =~= Seq::<Piece>::empty());
                    assert(whole == match segment_pieces(sp, bs, spans@, 0, 0) {
                        None => None,
                        Some(rest) => Some(pieces_view(out@) + rest),
                    }) by {
                        if let Some(rest) = whole {
                            assert(pieces_view(out@) + rest =~= rest);
                        }
                    }
                }
                while i < spans.len()
                    invariant
                        i <= spans@.len(),
                        bs == bytes@,
                        bs == doc.spec_bytes(),
                        valid_utf8(bs),
                        len == bs.len(),
                        sp == split.pattern(),
                        spans_wf(spans@, bs),
                        cursor <= len,
                        is_char_boundary(bs, cursor as int),
                        i > 0 ==> cursor == spans@[i - 1].1,
                        i == 0 ==> cursor == 0,
                        whole == segment_pieces(sp, bs, spans@, 0, 0),
                        whole == doc_pieces(self.split_pattern(), self.special_pattern(), doc@),
                        whole == match segment_pieces(sp, bs, spans@, i as int, cursor as int) {
                            None => None,
                            Some(rest) => Some(pieces_view(out@) + rest),
                        },
                    decreases spans@.len() - i,
                {
                    let (s, e) = spans[i];
                    proof {
                        if i > 0 {
                            assert(spans@[i - 1].1 <= spans@[i as int].0);
                        }
                        assert(s <= e <= len);
                    }
                    let ghost before = pieces_view(out@);
                    let res = Self::push_chunks(&split, doc, cursor, s, &mut out);
                    if res.is_err() {
                        proof {
                            assert(segment_pieces(sp, bs, spans@, i as int, cursor as int) is None);
                        }
                        return Err(res.unwrap_err());
                    }
                    let special_bytes = vstd::slice::slice_to_vec(vstd::slice::slice_subrange(bytes, s, e));
                    out.push((true, special_bytes));
                    proof {
                        let c = chunk_pieces(sp, bs, cursor as int, s as int).unwrap();
                        let piece: Piece = (true, bs.subrange(s as int, e as int));
                        assert(pieces_view(out@) =~= before + c + seq![piece]);
                        if let Some(rest) = segment_pieces(sp, bs, spans@, i as int + 1, e as int) {
                            assert(before + (c + seq![piece] + rest) =~= (before + c + seq![piece]) + rest);
                        }
                    }
                    cursor = e;
                    i = i + 1;
                }
                let ghost before = pieces_view(out@);
                proof {
                    assert(segment_pieces(sp, bs, spans@, i as int, cursor as int)
                        == chunk_pieces(sp, bs, cursor as int, bs.len() as int));
                }
                let res = Self::push_chunks(&split, doc, cursor, len, &mut out);
                if res.is_err() {
                    return Err(res.unwrap_err());
                }
                proof {
                    assert(pieces_view(out@) == before + chunk_pieces(sp, bs, cursor as int, len as int).unwrap());
                }
                Ok(out)
            },
        }
    }

    /// The chunks of `doc` that training counts: everything the split pattern
    /// finds between special-token matches, which are left out.
    pub fn training_chunks(&self, doc: &str) -> (r: Result<Vec<Vec<u8>>, BPEError>)
        requires
            self.wf(),
        ensures
            r is Ok <==> doc_pieces(self.split_pattern(), self.special_pattern(), doc@) is Some,
            r matches Ok(v) ==> v@.map_values(|c: Vec<u8>| c@)
                == piece_chunks(doc_pieces(self.split_pattern(), self.special_pattern(), doc@).unwrap()),
            r matches Err(e) ==> e is RegexEvaluation,
    {
        let pieces = self.pieces(doc)?;
        let ghost ps = pieces_view(pieces@);
        let mut out: Vec<Vec<u8>> = Vec::new();
        let mut i: usize = 0;
        while i < pieces.len()
            invariant
                i <= pieces@.len(),
                ps == pieces_view(pieces@),
                out@.map_values(|c: Vec<u8>| c@) == piece_chunks(ps.take(i as int)),
            decreases pieces@.len() - i,
        {
            proof {
                assert(ps.take(i as int + 1).drop_last() =~= ps.take(i as int));
                assert(ps.take(i as int + 1).last() == ps[i as int]);
            }
            if !pieces[i].0 {
                let chunk = vstd::slice::slice_to_vec(pieces[i].1.as_slice());
                let ghost before = out@;
                out.push(chunk);
                proof {
                    assert(out@.map_values(|c: Vec<u8>| c@) =~= before.map_values(|c: Vec<u8>| c@).push(ps[i as int].1));
                }
            }
            i = i + 1;
        }
        proof {
            assert(ps.take(pieces@.len() as int) =~= ps);
        }
        Ok(out)
    }

    /// Splits input text into independently encodable merge sequences.
    ///
    /// Special tokens act like pre-tokenized islands: everything between them
    /// is split by the regex, and each special-token literal becomes a
    /// single-node merge sequence so it never merges with its surroundings.
    pub fn split(&self, doc: &str) -> (r: Result<Vec<MergeSequence>, BPEError>)
        requires
            self.wf(),
        ensures
            r is Ok <==> (doc_pieces(self.split_pattern(), self.special_pattern(), doc@) matches Some(ps) && pieces_fit(ps)),
            r matches Err(e) ==> (e is CountOverflow <==> doc_pieces(self.split_pattern(), self.special_pattern(), doc@) is Some),
            r matches Ok(v) ==> {
                let expected = piece_sequences(self.specials(),
                    doc_pieces(self.split_pattern(), self.special_pattern(), doc@).unwrap());
                &&& v@.len() == expected.len()
                &&& forall|i: int| 0 <= i < v@.len() ==> (#[trigger] v@[i]).wf() && v@[i]@ == expected[i]
                        && v@[i].laid_out(expected[i])
            },
            r matches Err(e) ==> e is RegexEvaluation || e is CountOverflow,
    {
        proof {
            self.reveal_model();
        }
        let pieces = self.pieces(doc)?;
        let ghost ps = pieces_view(pieces@);
        let ghost specials = specials_view(self.special_tokens@);
        let mut out: Vec<MergeSequence> = Vec::new();
        let mut i: usize = 0;
        while i < pieces.len()
            invariant
                i <= pieces@.len(),
                ps == pieces_view(pieces@),
                doc_pieces(self.split_pattern(), self.special_pattern(), doc@) == Some(ps),
                specials == specials_view(self.special_tokens@),
                forall|j: int| 0 <= j < i ==> !(#[trigger] ps[j]).0 ==> ps[j].1.len() <= u32::MAX + 1,
                out@.len() == piece_sequences(specials, ps.take(i as int)).len(),
                forall|j: int| 0 <= j < out@.len() ==> (#[trigger] out@[j]).wf()
                    && out@[j]@ == piece_sequences(specials, ps.take(i as int))[j]
                    && out@[j].laid_out(piece_sequences(specials, ps.take(i as int))[j]),
            decreases pieces@.len() - i,
        {
            let ghost prev = ps.take(i as int);
            proof {
                assert(ps.take(i as int + 1).drop_last() =~= prev);
                assert(ps.take(i as int + 1).last() == ps[i as int]);
            }
            let (is_special, ref bytes) = pieces[i];
            if !is_special {
                if bytes.len() as u64 > 0x1_0000_0000u64 {
                    proof {
                        assert(ps[i as int] == (false, bytes@));
                        assert(ps[i as int].1.len() > u32::MAX + 1);
                        assert(!pieces_fit(ps));
                    }
                    return Err(BPEError::CountOverflow);
                }
                let ms = MergeSequence::new(bytes.as_slice());
                out.push(ms);
                proof {
                    assert(bytes@.map_values(|b: u8| b as TokenId) == bytes_tokens(bytes@));
                }
            } else {
                match self.lookup_special(bytes.as_slice()) {
                    Some(token_id) => {
                        out.push(MergeSequence::from_token_id(token_id));
                    },
                    None => {},
                }
            }
            i = i + 1;
        }
        proof {
            assert(ps.take(pieces@.len() as int) =~= ps);
        }
        Ok(out)
    }
}

} // verus!
