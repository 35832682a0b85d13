//! Building a model: the split pattern, the special tokens with their ids and
//! the alternation pattern that finds them, and the base vocabulary.

use vstd::prelude::*;
use vstd::string::StringSliceAdditionalSpecFns;
use vstd::utf8::encode_utf8;
use std::collections::HashMap;
use crate::bpe::BPE;
use crate::error::BPEError;
use crate::pattern::{compile, escape, regex_compiles, regex_escape};
use crate::split::specials_view;
use crate::text::push_str;
use crate::training::{merges_view, vocab_view};
use crate::types::{TokenId, BASE_VOCAB_SIZE};

verus! {

broadcast use vstd::std_specs::hash::group_hash_axioms;

/// `a` precedes `b` in byte order (for byte strings of the same length).
pub open spec fn lex_less(a: Seq<u8>, b: Seq<u8>) -> bool {
    exists|k: int| 0 <= k < a.len() && k < b.len() && a.take(k) == b.take(k) && a[k] < b[k]
}

/// Special tokens are tried longest first, then in byte order.
pub open spec fn token_before(a: Seq<u8>, b: Seq<u8>) -> bool {
    a.len() > b.len() || (a.len() == b.len() && lex_less(a, b))
}

/// Every earlier token is tried before every later one.
pub open spec fn priority_sorted(s: Seq<Seq<char>>) -> bool {
    forall|i: int, j: int| 0 <= i < j < s.len() ==> token_before(encode_utf8(#[trigger] s[i]), encode_utf8(#[trigger] s[j]))
}

/// The regex alternation of the escaped tokens, in order.
pub open spec fn alternation(s: Seq<Seq<char>>) -> Seq<char>
    decreases s.len(),
{
    if s.len() == 0 {
        seq![]
    } else if s.len() == 1 {
        regex_escape(s[0])
    } else {
        alternation(s.drop_last()) + seq!['|'] + regex_escape(s.last())
    }
}

/// The texts of the special tokens.
pub open spec fn special_keys(s: Seq<(Seq<char>, TokenId)>) -> Seq<Seq<char>> {
    s.map_values(|e: (Seq<char>, TokenId)| e.0)
}

/// The pattern that finds the special tokens with texts `keys`: their
/// escaped texts, longest first and then in byte order, joined by `|`; none
/// without special tokens.
pub open spec fn is_special_pattern(keys: Set<Seq<char>>, p: Option<Seq<char>>) -> bool {
    if keys == Set::<Seq<char>>::empty() {
        p is None
    } else {
        exists|order: Seq<Seq<char>>| {
            &&& priority_sorted(order)
            &&& order.no_duplicates()
            &&& order.to_set() == keys
            &&& p == Some(alternation(order))
        }
    }
}

/// The special tokens as a table from text to id, a later entry replacing an
/// earlier one with the same text.
pub open spec fn special_table(s: Seq<(Seq<char>, TokenId)>) -> Map<Seq<char>, TokenId>
    decreases s.len(),
{
    if s.len() == 0 {
        Map::empty()
    } else {
        special_table(s.drop_last()).insert(s.last().0, s.last().1)
    }
}

/// Texts of the configured special tokens are distinct.
pub open spec fn keys_unique(s: Seq<(Seq<char>, TokenId)>) -> bool {
    forall|i: int, j: int| 0 <= i < j < s.len() ==> (#[trigger] s[i]).0 != (#[trigger] s[j]).0
}

/// The table of a list with distinct texts.
pub open spec fn table_of(s: Seq<(Seq<char>, TokenId)>) -> Map<Seq<char>, TokenId> {
    Map::new(|k: Seq<char>| exists|i: int| 0 <= i < s.len() && s[i].0 == k,
        |k: Seq<char>| s[choose|i: int| 0 <= i < s.len() && s[i].0 == k].1)
}

/// The special token at `i` is rejected: its id lies in the byte range, or an
/// earlier special token has the same id.
pub open spec fn special_rejected(s: Seq<(Seq<char>, TokenId)>, i: int) -> bool {
    s[i].1 < BASE_VOCAB_SIZE || exists|j: int| 0 <= j < i && s[j].1 == s[i].1
}

/// Index `i` is the first rejected special token.
pub open spec fn first_rejected(s: Seq<(Seq<char>, TokenId)>, i: int) -> bool {
    &&& 0 <= i < s.len()
    &&& special_rejected(s, i)
    &&& forall|j: int| 0 <= j < i ==> !special_rejected(s, j)
}

/// The split pattern that `new` uses.
pub open spec fn chosen_pattern(split_pattern: Option<&str>) -> Seq<char> {
    match split_pattern {
        Some(p) => p@,
        None => BPE::DEFAULT_SPLIT_PATTERN@,
    }
}

/// The special tokens given to `new`.
pub open spec fn given_specials(special_tokens: Option<&[(&str, TokenId)]>) -> Seq<(Seq<char>, TokenId)> {
    match special_tokens {
        Some(t) => input_specials(t@),
        None => Seq::<(Seq<char>, TokenId)>::empty(),
    }
}

/// `r` reports the rejection of the special token at `i`.
pub open spec fn reports_rejection(r: Result<BPE, BPEError>, s: Seq<(Seq<char>, TokenId)>, i: int) -> bool {
    if s[i].1 < BASE_VOCAB_SIZE {
        match r {
            Err(BPEError::SpecialTokenIdOverlapsBaseVocab { token, token_id }) => token@ == s[i].0 && token_id == s[i].1,
            _ => false,
        }
    } else {
        match r {
            Err(BPEError::DuplicateSpecialTokenId { token_id }) => token_id == s[i].1,
            _ => false,
        }
    }
}

/// Some special token is rejected.
pub open spec fn any_rejected(s: Seq<(Seq<char>, TokenId)>) -> bool {
    exists|i: int| 0 <= i < s.len() && special_rejected(s, i)
}

/// The vocabulary of a fresh model: every byte, then every special token's
/// bytes under its id.
pub open spec fn initial_vocab(s: Seq<(Seq<char>, TokenId)>) -> Map<TokenId, Seq<u8>>
    decreases s.len(),
{
    if s.len() == 0 {
        Map::new(|id: TokenId| id < BASE_VOCAB_SIZE, |id: TokenId| seq![id as u8])
    } else {
        initial_vocab(s.drop_last()).insert(s.last().1, encode_utf8(s.last().0))
    }
}

/// The input special tokens as text and id.
pub open spec fn input_specials(s: Seq<(&str, TokenId)>) -> Seq<(Seq<char>, TokenId)> {
    s.map_values(|e: (&str, TokenId)| (e.0@, e.1))
}

/// The byte vocabulary: every byte id maps to that byte.
fn byte_vocab() -> (r: HashMap<TokenId, Vec<u8>>)
    ensures
        vocab_view(r@) == Map::new(|id: TokenId| id < BASE_VOCAB_SIZE, |id: TokenId| seq![id as u8]),
{
        let mut vocab: HashMap<TokenId, Vec<u8>> = HashMap::new();
        let mut byte: u32 = 0;
        while byte < BASE_VOCAB_SIZE
            invariant
                byte <= BASE_VOCAB_SIZE,
                vocab_view(vocab@) == Map::new(|id: TokenId| id < byte, |id: TokenId| seq![id as u8]),
            decreases BASE_VOCAB_SIZE - byte,
        {
            let mut bytes: Vec<u8> = Vec::new();
            bytes.push(byte as u8);
            let ghost before = vocab@;
            proof {
                assert(bytes@ =~= seq![byte as u8]);
            }
            vocab.insert(byte, bytes);
            proof {
                assert(vocab_view(vocab@) =~= vocab_view(before).insert(byte, seq![byte as u8]));
                assert(vocab_view(vocab@) =~= Map::new(|id: TokenId| id < byte + 1, |id: TokenId| seq![id as u8]));
            }
            byte = byte + 1;
        }
        vocab
}

/// `a` is tried before `b`.
fn token_first(a: &[u8], b: &[u8]) -> (r: bool)
    ensures
        r == token_before(a@, b@),
{
    if a.len() != b.len() {
        return a.len() > b.len();
    }
    let mut i: usize = 0;
    while i < a.len()
        invariant
            a@.len() == b@.len(),
            i <= a@.len(),
            a@.take(i as int) == b@.take(i as int),
        decreases a@.len() - i,
    {
        if a[i] != b[i] {
            proof {
                if a[i as int] > b[i as int] {
                    assert forall|k: int| 0 <= k < a@.len() && k < b@.len() && a@.take(k) == b@.take(k) implies !(a@[k] < b@[k]) by {
                        if k < i {
                            assert(a@.take(i as int)[k] == a@[k]);
                            assert(b@.take(i as int)[k] == b@[k]);
                        } else if k > i {
                            assert(a@.take(k)[i as int] == a@[i as int]);
                            assert(b@.take(k)[i as int] == b@[i as int]);
                        }
                    }
                }
            }
            return a[i] < b[i];
        }
        proof {
            assert(a@.take(i as int + 1) =~= a@.take(i as int).push(a@[i as int]));
            assert(b@.take(i as int + 1) =~= b@.take(i as int).push(b@[i as int]));
        }
        i = i + 1;
    }
    proof {
        assert(a@ =~= b@) by {
            assert(a@.take(a@.len() as int) =~= a@);
            assert(b@.take(b@.len() as int) =~= b@);
        }
        assert forall|k: int| 0 <= k < a@.len() && k < b@.len() && a@.take(k) == b@.take(k) implies !(a@[k] < b@[k]) by {}
    }
    false
}

/// Byte order is transitive.
proof fn lemma_lex_transitive(a: Seq<u8>, b: Seq<u8>, c: Seq<u8>)
    requires
        lex_less(a, b),
        lex_less(b, c),
        a.len() == b.len(),
        b.len() == c.len(),
    ensures
        lex_less(a, c),
{
    let k1 = choose|k: int| 0 <= k < a.len() && k < b.len() && a.take(k) == b.take(k) && a[k] < b[k];
    let k2 = choose|k: int| 0 <= k < b.len() && k < c.len() && b.take(k) == c.take(k) && b[k] < c[k];
    let k = if k1 < k2 { k1 } else { k2 };
    assert(a.take(k) =~= c.take(k)) by {
        assert forall|x: int| 0 <= x < k implies a.take(k)[x] == c.take(k)[x] by {
            assert(a.take(k1)[x] == b.take(k1)[x]);
            assert(b.take(k2)[x] == c.take(k2)[x]);
        }
    }
    if k1 < k2 {
        assert(b.take(k2)[k1] == c.take(k2)[k1]);
    } else if k2 < k1 {
        assert(a.take(k1)[k2] == b.take(k1)[k2]);
    }
}

/// Two different byte strings of the same length are ordered one way.
proof fn lemma_lex_total(a: Seq<u8>, b: Seq<u8>, k: int)
    requires
        a.len() == b.len(),
        a != b,
        0 <= k <= a.len(),
        a.take(k) == b.take(k),
    ensures
        lex_less(a, b) || lex_less(b, a),
    decreases a.len() - k,
{
    if k == a.len() {
        assert(a =~= b) by {
            assert(a.take(k) =~= a);
            assert(b.take(k) =~= b);
        }
    } else if a[k] != b[k] {
    } else {
        assert(a.take(k + 1) =~= a.take(k).push(a[k]));
        assert(b.take(k + 1) =~= b.take(k).push(b[k]));
        lemma_lex_total(a, b, k + 1);
    }
}

/// No byte string precedes itself.
proof fn lemma_lex_irreflexive(a: Seq<u8>)
    ensures
        !lex_less(a, a),
{
}

/// The priority order is a strict total order on distinct texts.
pub proof fn lemma_before_order(a: Seq<u8>, b: Seq<u8>, c: Seq<u8>)
    ensures
        !token_before(a, a),
        token_before(a, b) && token_before(b, c) ==> token_before(a, c),
        a != b ==> token_before(a, b) || token_before(b, a),
{
    lemma_lex_irreflexive(a);
    if token_before(a, b) && token_before(b, c) && a.len() == b.len() && b.len() == c.len() {
        lemma_lex_transitive(a, b, c);
    }
    if a != b && a.len() == b.len() {
        assert(a.take(0) =~= b.take(0));
        lemma_lex_total(a, b, 0);
    }
}

/// With distinct texts, the table maps each listed text to its id.
proof fn lemma_table_of(s: Seq<(Seq<char>, TokenId)>, i: int)
    requires
        keys_unique(s),
        0 <= i < s.len(),
    ensures
        table_of(s).contains_key(s[i].0),
        table_of(s)[s[i].0] == s[i].1,
{
    let k = s[i].0;
    assert(exists|j: int| 0 <= j < s.len() && s[j].0 == k);
    let j = choose|j: int| 0 <= j < s.len() && s[j].0 == k;
    if j != i {
        if j < i {
            assert(s[j].0 != s[i].0);
        } else {
            assert(s[i].0 != s[j].0);
        }
    }
}

/// The texts of a list are the keys of its table.
proof fn lemma_keys_set(s: Seq<(Seq<char>, TokenId)>)
    ensures
        special_keys(s).to_set() == table_of(s).dom(),
{
    assert forall|k: Seq<char>| special_keys(s).to_set().contains(k) == table_of(s).dom().contains(k) by {
        if special_keys(s).contains(k) {
            let i = choose|i: int| 0 <= i < special_keys(s).len() && special_keys(s)[i] == k;
            assert(s[i].0 == k);
        }
        if table_of(s).dom().contains(k) {
            let i = choose|i: int| 0 <= i < s.len() && s[i].0 == k;
            assert(special_keys(s)[i] == k);
        }
    }
    assert(special_keys(s).to_set() =~= table_of(s).dom());
}

/// Records `token` with `token_id`, replacing the id of an equal text.
fn insert_special(specials: &mut Vec<(String, TokenId)>, token: String, token_id: TokenId)
    requires
        keys_unique(specials_view(old(specials)@)),
    ensures
        keys_unique(specials_view(final(specials)@)),
        table_of(specials_view(final(specials)@)) == table_of(specials_view(old(specials)@)).insert(token@, token_id),
{
    let ghost s0 = specials_view(specials@);
    let mut i: usize = 0;
    while i < specials.len()
        invariant
            i <= specials@.len(),
            specials@ == old(specials)@,
            s0 == specials_view(specials@),
            keys_unique(s0),
            forall|j: int| 0 <= j < i ==> s0[j].0 != token@,
        decreases specials@.len() - i,
    {
        if specials[i].0 == token {
            specials.set(i, (token, token_id));
            proof {
                let s1 = specials_view(specials@);
                assert(s1 =~= s0.update(i as int, (token@, token_id)));
                assert(keys_unique(s1)) by {
                    assert forall|a: int, b: int| 0 <= a < b < s1.len() implies (#[trigger] s1[a]).0 != (#[trigger] s1[b]).0 by {
                        assert(s0[a].0 != s0[b].0);
                    }
                }
                assert(table_of(s1) =~= table_of(s0).insert(token@, token_id)) by {
                    assert(s1[i as int].0 == token@);
                    assert(s0[i as int].0 == token@);
                    assert forall|k: Seq<char>| table_of(s1).contains_key(k) == table_of(s0).insert(token@, token_id).contains_key(k) by {
                        if table_of(s0).contains_key(k) {
                            let j = choose|j: int| 0 <= j < s0.len() && s0[j].0 == k;
                            assert(s1[j].0 == k);
                        }
                        if k == token@ {
                            assert(s1[i as int].0 == k);
                        }
                        if table_of(s1).contains_key(k) {
                            let j = choose|j: int| 0 <= j < s1.len() && s1[j].0 == k;
                            assert(s0[j].0 == k);
                        }
                    }
                    assert forall|k: Seq<char>| table_of(s1).contains_key(k) implies
                        table_of(s1)[k] == table_of(s0).insert(token@, token_id)[k] by {
                        let j = choose|j: int| 0 <= j < s1.len() && s1[j].0 == k;
                        lemma_table_of(s1, j);
                        if k != token@ {
                            lemma_table_of(s0, j);
                        }
                    }
                }
            }
            return;
        }
        i = i + 1;
    }
    specials.push((token, token_id));
    proof {
        let s1 = specials_view(specials@);
        assert(s1 =~= s0.push((token@, token_id)));
        assert(keys_unique(s1)) by {
            assert forall|a: int, b: int| 0 <= a < b < s1.len() implies (#[trigger] s1[a]).0 != (#[trigger] s1[b]).0 by {
                if b < s0.len() {
                    assert(s0[a].0 != s0[b].0);
                }
            }
        }
        assert(table_of(s1) =~= table_of(s0).insert(token@, token_id)) by {
            assert forall|k: Seq<char>| table_of(s1).contains_key(k) == table_of(s0).insert(token@, token_id).contains_key(k) by {
                if table_of(s0).contains_key(k) {
                    let j = choose|j: int| 0 <= j < s0.len() && s0[j].0 == k;
                    assert(s1[j].0 == k);
                }
                if k == token@ {
                    assert(s1[s0.len() as int].0 == k);
                }
                if table_of(s1).contains_key(k) {
                    let j = choose|j: int| 0 <= j < s1.len() && s1[j].0 == k;
                    if j < s0.len() {
                        assert(s0[j].0 == k);
                    }
                }
            }
            assert forall|k: Seq<char>| table_of(s1).contains_key(k) implies
                table_of(s1)[k] == table_of(s0).insert(token@, token_id)[k] by {
                let j = choose|j: int| 0 <= j < s1.len() && s1[j].0 == k;
                lemma_table_of(s1, j);
                if j < s0.len() {
                    lemma_table_of(s0, j);
                }
            }
        }
    }
}

impl BPE {
    /// Source of the default split pattern (GPT-style).
    pub const DEFAULT_SPLIT_PATTERN: &'static str = "'(?i:[sdmt]|ll|ve|re)|[^\\r\\n\\p{L}\\p{N}]?+\\p{L}++|\\p{N}{1,3}+| ?[^\\s\\p{L}\\p{N}]++[\\r\\n]*+|\\s++$|\\s*[\\r\\n]|\\s+(?!\\S)|\\s";

    /// Constructs a model with an optional split regex and optional special tokens.
    ///
    /// Without a split pattern the default one is used; without special tokens
    /// none are configured. Special-token ids must lie above the byte vocabulary
    /// so that `0..=255` stays a lossless representation of raw bytes, and no id
    /// may be given twice.
    pub fn new(split_pattern: Option<&str>, special_tokens: Option<&[(&str, TokenId)]>) -> (r: Result<BPE, BPEError>)
        ensures
            !regex_compiles(chosen_pattern(split_pattern)) ==> (r matches Err(BPEError::InvalidSplitRegex(_))),
            regex_compiles(chosen_pattern(split_pattern)) && any_rejected(given_specials(special_tokens)) ==>
                exists|i: int| #[trigger] first_rejected(given_specials(special_tokens), i)
                    && reports_rejection(r, given_specials(special_tokens), i),
            regex_compiles(chosen_pattern(split_pattern)) && !any_rejected(given_specials(special_tokens)) ==>
                r is Ok || (r matches Err(BPEError::InvalidSplitRegex(_))),
            r matches Err(BPEError::InvalidSplitRegex(_)) ==> !regex_compiles(chosen_pattern(split_pattern)) || (
                !any_rejected(given_specials(special_tokens)) && exists|p: Seq<char>|
                    is_special_pattern(special_table(given_specials(special_tokens)).dom(), Some(p)) && !regex_compiles(p)),
            r matches Ok(b) ==> {
                let s = given_specials(special_tokens);
                &&& b.wf()
                &&& regex_compiles(chosen_pattern(split_pattern))
                &&& !any_rejected(s)
                &&& b.split_pattern() == chosen_pattern(split_pattern)
                &&& keys_unique(b.specials())
                &&& table_of(b.specials()) == special_table(s)
                &&& is_special_pattern(special_table(s).dom(), b.special_pattern())
                &&& b.vocab_bytes() == initial_vocab(s)
                &&& b.merges() == Map::<(TokenId, TokenId), TokenId>::empty()
            },
    {
        let split_pattern_source: String = match split_pattern {
            Some(p) => p.to_owned(),
            None => BPE::DEFAULT_SPLIT_PATTERN.to_owned(),
        };
        match compile(split_pattern_source.as_str()) {
            Ok(_) => {},
            Err(err) => return Err(BPEError::InvalidSplitRegex(err)),
        }
        let mut vocab = byte_vocab();
        let ghost s = match special_tokens {
            Some(t) => input_specials(t@),
            None => Seq::<(Seq<char>, TokenId)>::empty(),
        };
        let mut specials: Vec<(String, TokenId)> = Vec::new();
        let mut used: std::collections::HashSet<TokenId> = std::collections::HashSet::new();
        proof {
            assert(initial_vocab(s.take(0)) == Map::new(|id: TokenId| id < BASE_VOCAB_SIZE, |id: TokenId| seq![id as u8]));
            assert(special_table(s.take(0)) =~= Map::<Seq<char>, TokenId>::empty());
            assert(table_of(specials_view(specials@)) =~= Map::<Seq<char>, TokenId>::empty());
        }
        let count: usize = match special_tokens {
            Some(t) => t.len(),
            None => 0,
        };
        let mut i: usize = 0;
        while i < count
            invariant
                i <= count,
                count == s.len(),
                special_tokens matches Some(t) ==> s == input_specials(t@),
                special_tokens is None ==> count == 0,
                regex_compiles(split_pattern_source@),
                split_pattern_source@ == match split_pattern {
                    Some(p) => p@,
                    None => BPE::DEFAULT_SPLIT_PATTERN@,
                },
                forall|j: int| 0 <= j < i ==> !special_rejected(s, j),
                forall|id: TokenId| used@.contains(id) <==> exists|j: int| 0 <= j < i && s[j].1 == id,
                vocab_view(vocab@) == initial_vocab(s.take(i as int)),
                keys_unique(specials_view(specials@)),
                table_of(specials_view(specials@)) == special_table(s.take(i as int)),
                forall|b: TokenId| b < BASE_VOCAB_SIZE ==> #[trigger] vocab_view(vocab@).contains_key(b)
                    && vocab_view(vocab@)[b] == seq![b as u8],
                forall|k: Seq<char>| #[trigger] table_of(specials_view(specials@)).contains_key(k) ==> {
                    let id = table_of(specials_view(specials@))[k];
                    &&& BASE_VOCAB_SIZE <= id
                    &&& used@.contains(id)
                    &&& vocab_view(vocab@).contains_key(id)
                    &&& vocab_view(vocab@)[id] == encode_utf8(k)
                },
            decreases count - i,
        {
            let (token, token_id) = match special_tokens {
                Some(t) => t[i],
                None => ("", 0),
            };
            proof {
                assert(s[i as int] == (token@, token_id));
            }
            if token_id < BASE_VOCAB_SIZE {
                proof {
                    assert(first_rejected(s, i as int));
                }
                return Err(BPEError::SpecialTokenIdOverlapsBaseVocab { token: token.to_owned(), token_id });
            }
            if used.contains(&token_id) {
                proof {
                    assert(first_rejected(s, i as int));
                }
                return Err(BPEError::DuplicateSpecialTokenId { token_id });
            }
            let ghost table0 = table_of(specials_view(specials@));
            let ghost used0 = used@;
            let ghost vocab0 = vocab_view(vocab@);
            used.insert(token_id);
            vocab.insert(token_id, vstd::slice::slice_to_vec(token.as_bytes()));
            insert_special(&mut specials, token.to_owned(), token_id);
            proof {
                let table1 = table_of(specials_view(specials@));
                assert(vocab_view(vocab@) =~= vocab0.insert(token_id, encode_utf8(token@)));
                assert forall|k: Seq<char>| #[trigger] table1.contains_key(k) implies {
                    let id = table1[k];
                    &&& BASE_VOCAB_SIZE <= id
                    &&& used@.contains(id)
                    &&& vocab_view(vocab@).contains_key(id)
                    &&& vocab_view(vocab@)[id] == encode_utf8(k)
                } by {
                    if k != token@ {
                        assert(table0.contains_key(k));
                        assert(used0.contains(table0[k]));
                    }
                }
                let t = s.take(i as int + 1);
                assert(t.drop_last() =~= s.take(i as int));
                assert(t.last() == (token@, token_id));
                assert(vocab_view(vocab@) =~= initial_vocab(t));
                assert forall|j: int| 0 <= j < i + 1 implies !special_rejected(s, j) by {}
            }
            i = i + 1;
        }
        proof {
            assert(s.take(s.len() as int) =~= s);
            assert(!any_rejected(s));
        }
        let special_split_pattern_source = BPE::build_special_token_pattern(&specials);
        match &special_split_pattern_source {
            Some(source) => match compile(source.as_str()) {
                Ok(_) => {},
                Err(err) => {
                    proof {
                        lemma_keys_set(specials_view(specials@));
                    }
                    return Err(BPEError::InvalidSplitRegex(err));
                },
            },
            None => {},
        }
        let b = BPE {
            split_pattern_source,
            special_split_pattern_source,
            special_tokens: specials,
            vocab,
            merge_map: HashMap::new(),
            merge_sequences: Vec::new(),
            count_to_token_id_pairs: HashMap::new(),
            max_token_id_pair_count: 0,
            token_id_pair_info: HashMap::new(),
        };
        proof {
            b.reveal_model();
            lemma_keys_set(specials_view(b.special_tokens@));
            let sv = specials_view(b.special_tokens@);
            assert forall|j: int| 0 <= j < sv.len() implies BASE_VOCAB_SIZE <= (#[trigger] sv[j]).1
                && vocab_view(b.vocab@).contains_key(sv[j].1) && vocab_view(b.vocab@)[sv[j].1] == encode_utf8(sv[j].0) by {
                lemma_table_of(sv, j);
            }
            assert(merges_view(b.merge_map@) =~= Map::<(TokenId, TokenId), TokenId>::empty());
        }
        Ok(b)
    }

    /// Builds an alternation regex that matches special tokens from longest to
    /// shortest, equal lengths in byte order, so that a short token like `<e>`
    /// cannot steal the prefix of a longer one like `<eos>`.
    pub fn build_special_token_pattern(special_tokens: &Vec<(String, TokenId)>) -> (r: Option<String>)
        requires
            keys_unique(specials_view(special_tokens@)),
        ensures
            is_special_pattern(special_keys(specials_view(special_tokens@)).to_set(), match r {
                Some(p) => Some(p@),
                None => None,
            }),
    {
        let ghost s = specials_view(special_tokens@);
        if special_tokens.len() == 0 {
            proof {
                assert(special_keys(s).to_set() =~= Set::<Seq<char>>::empty());
            }
            return None;
        }
        // the texts still to place, and the texts placed so far
        let mut remaining: Vec<String> = Vec::new();
        let mut k: usize = 0;
        while k < special_tokens.len()
            invariant
                k <= special_tokens@.len(),
                s == specials_view(special_tokens@),
                remaining@.len() == k,
                forall|x: int| 0 <= x < k ==> (#[trigger] remaining@[x])@ == s[x].0,
            decreases special_tokens@.len() - k,
        {
            remaining.push(special_tokens[k].0.clone());
            k = k + 1;
        }
        let ghost keys = special_keys(s);
        proof {
            assert forall|x: int, y: int| 0 <= x < y < keys.len() implies keys[x] != keys[y] by {
                assert(s[x].0 != s[y].0);
            }
            assert(keys.no_duplicates());
        }
        let mut ordered: Vec<String> = Vec::new();
        let ghost mut rem_view: Seq<Seq<char>> = keys;
        let ghost mut ord_view: Seq<Seq<char>> = Seq::empty();
        proof {
            assert(rem_view =~= remaining@.map_values(|t: String| t@));
        }
        while remaining.len() > 0
            invariant
                rem_view == remaining@.map_values(|t: String| t@),
                ord_view == ordered@.map_values(|t: String| t@),
                (ord_view + rem_view).no_duplicates(),
                (ord_view + rem_view).to_set() == keys.to_set(),
                priority_sorted(ord_view),
                forall|x: int, y: int| 0 <= x < ord_view.len() && 0 <= y < rem_view.len() ==>
                    token_before(encode_utf8(#[trigger] ord_view[x]), encode_utf8(#[trigger] rem_view[y])),
            decreases remaining@.len(),
        {
            let mut best: usize = 0;
            let mut x: usize = 1;
            while x < remaining.len()
                invariant
                    rem_view == remaining@.map_values(|t: String| t@),
                    (ord_view + rem_view).no_duplicates(),
                    best < remaining@.len(),
                    1 <= x <= remaining@.len(),
                    best < x,
                    forall|y: int| 0 <= y < x && y != best ==>
                        token_before(encode_utf8(rem_view[best as int]), encode_utf8(#[trigger] rem_view[y])),
                decreases remaining@.len() - x,
            {
                let ghost old_best = best;
                if token_first(remaining[x].as_str().as_bytes(), remaining[best].as_str().as_bytes()) {
                    best = x;
                    proof {
                        assert forall|y: int| 0 <= y < x + 1 && y != best implies
                            token_before(encode_utf8(rem_view[best as int]), encode_utf8(#[trigger] rem_view[y])) by {
                            if y != old_best {
                                lemma_before_order(encode_utf8(rem_view[x as int]), encode_utf8(rem_view[old_best as int]),
                                    encode_utf8(rem_view[y]));
                            }
                        }
                    }
                } else {
                    proof {
                        assert((ord_view + rem_view)[ord_view.len() + x] == rem_view[x as int]);
                        assert((ord_view + rem_view)[ord_view.len() + best] == rem_view[best as int]);
                        assert(rem_view[x as int] != rem_view[best as int]);
                        vstd::utf8::encode_utf8_decode_utf8(rem_view[x as int]);
                        vstd::utf8::encode_utf8_decode_utf8(rem_view[best as int]);
                        lemma_before_order(encode_utf8(rem_view[best as int]), encode_utf8(rem_view[x as int]),
                            encode_utf8(rem_view[x as int]));
                    }
                }
                x = x + 1;
            }
            let chosen = remaining.remove(best);
            ordered.push(chosen);
            proof {
                let old_rem = rem_view;
                let old_ord = ord_view;
                rem_view = remaining@.map_values(|t: String| t@);
                ord_view = ordered@.map_values(|t: String| t@);
                assert(rem_view =~= old_rem.remove(best as int));
                assert(ord_view =~= old_ord.push(old_rem[best as int]));
                assert(ord_view + rem_view =~= (old_ord + old_rem).remove(old_ord.len() + best).insert(
                    old_ord.len() as int, old_rem[best as int])) by {
                    assert forall|z: int| 0 <= z < (ord_view + rem_view).len() implies (ord_view + rem_view)[z]
                        == (old_ord + old_rem).remove(old_ord.len() + best).insert(old_ord.len() as int, old_rem[best as int])[z] by {}
                }
                let whole = old_ord + old_rem;
                assert forall|z1: int, z2: int| 0 <= z1 < z2 < (ord_view + rem_view).len() implies
                    (ord_view + rem_view)[z1] != (ord_view + rem_view)[z2] by {
                    let w1 = if z1 < old_ord.len() { z1 } else if z1 == old_ord.len() { old_ord.len() + best }
                        else if z1 - old_ord.len() - 1 < best { z1 - 1 } else { z1 };
                    let w2 = if z2 < old_ord.len() { z2 } else if z2 == old_ord.len() { old_ord.len() + best }
                        else if z2 - old_ord.len() - 1 < best { z2 - 1 } else { z2 };
                    assert((ord_view + rem_view)[z1] == whole[w1]);
                    assert((ord_view + rem_view)[z2] == whole[w2]);
                    assert(w1 != w2);
                }
                assert((ord_view + rem_view).to_set() =~= keys.to_set()) by {
                    assert forall|t: Seq<char>| (ord_view + rem_view).to_set().contains(t) == whole.to_set().contains(t) by {
                        if (ord_view + rem_view).contains(t) {
                            let z = choose|z: int| 0 <= z < (ord_view + rem_view).len() && (ord_view + rem_view)[z] == t;
                            let w = if z < old_ord.len() { z } else if z == old_ord.len() { old_ord.len() + best }
                                else if z - old_ord.len() - 1 < best { z - 1 } else { z };
                            assert(whole[w] == t);
                        }
                        if whole.contains(t) {
                            let w = choose|w: int| 0 <= w < whole.len() && whole[w] == t;
                            let z = if w < old_ord.len() { w } else if w == old_ord.len() + best { old_ord.len() as int }
                                else if w < old_ord.len() + best { w + 1 } else { w };
                            assert((ord_view + rem_view)[z] == t);
                        }
                    }
                }
                assert forall|a: int, b: int| 0 <= a < b < ord_view.len() implies
                    token_before(encode_utf8(#[trigger] ord_view[a]), encode_utf8(#[trigger] ord_view[b])) by {
                    if b == ord_view.len() - 1 {
                        assert(ord_view[b] == old_rem[best as int]);
                        assert(ord_view[a] == old_ord[a]);
                    } else {
                        assert(ord_view[a] == old_ord[a]);
                        assert(ord_view[b] == old_ord[b]);
                    }
                }
                assert forall|a: int, b: int| 0 <= a < ord_view.len() && 0 <= b < rem_view.len() implies
                    token_before(encode_utf8(#[trigger] ord_view[a]), encode_utf8(#[trigger] rem_view[b])) by {
                    let ob = if b < best { b } else { b + 1 };
                    assert(rem_view[b] == old_rem[ob]);
                    if a == ord_view.len() - 1 {
                        assert(ord_view[a] == old_rem[best as int]);
                    } else {
                        assert(ord_view[a] == old_ord[a]);
                    }
                }
            }
        }
        let ghost order = ord_view;
        proof {
            assert(rem_view =~= Seq::<Seq<char>>::empty());
            assert(ord_view + rem_view =~= ord_view);
        }
        let mut pattern = String::new();
        let mut i: usize = 0;
        while i < ordered.len()
            invariant
                i <= ordered@.len(),
                order == ordered@.map_values(|t: String| t@),
                pattern@ == alternation(order.take(i as int)),
            decreases ordered@.len() - i,
        {
            if i > 0 {
                push_str(&mut pattern, "|");
            }
            let escaped = escape(ordered[i].as_str());
            push_str(&mut pattern, escaped.as_str());
            proof {
                reveal_strlit("|");
                let t = order.take(i as int + 1);
                assert(t.drop_last() =~= order.take(i as int));
                assert(t.last() == order[i as int]);
                if i == 0 {
                    assert(order.take(0) =~= Seq::<Seq<char>>::empty());
                    assert(pattern@ =~= regex_escape(order[0]));
                } else {
                    assert(pattern@ =~= alternation(order.take(i as int)) + seq!['|'] + regex_escape(order[i as int]));
                }
            }
            i = i + 1;
        }
        proof {
            assert(order.take(order.len() as int) =~= order);
            assert(special_keys(s).to_set().contains(s[0].0)) by {
                assert(special_keys(s)[0] == s[0].0);
            }
            assert(special_keys(s).to_set() != Set::<Seq<char>>::empty());
            assert(is_special_pattern(special_keys(s).to_set(), Some(pattern@))) by {
                assert(priority_sorted(order));
            }
        }
        Some(pattern)
    }
}

impl Default for BPE {
    /// The model with the default split pattern and no special tokens.
    fn default() -> (r: Self)
        ensures
            r.split_pattern() == BPE::DEFAULT_SPLIT_PATTERN@,
            r.special_pattern() is None,
            r.specials() == Seq::<(Seq<char>, TokenId)>::empty(),
            r.vocab_bytes() == initial_vocab(Seq::<(Seq<char>, TokenId)>::empty()),
            r.merges() == Map::<(TokenId, TokenId), TokenId>::empty(),
            regex_compiles(BPE::DEFAULT_SPLIT_PATTERN@) ==> r.wf(),
    {
        let b = BPE {
            split_pattern_source: BPE::DEFAULT_SPLIT_PATTERN.to_owned(),
            special_split_pattern_source: None,
            special_tokens: Vec::new(),
            vocab: byte_vocab(),
            merge_map: HashMap::new(),
            merge_sequences: Vec::new(),
            count_to_token_id_pairs: HashMap::new(),
            max_token_id_pair_count: 0,
            token_id_pair_info: HashMap::new(),
        };
        proof {
            b.reveal_model();
            assert(specials_view(b.special_tokens@) =~= Seq::<(Seq<char>, TokenId)>::empty());
            assert(merges_view(b.merge_map@) =~= Map::<(TokenId, TokenId), TokenId>::empty());
        }
        b
    }
}

} // verus!
