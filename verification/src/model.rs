//! Mathematical model of byte pair encoding: pair counts over weighted token
//! sequences, the greedy left-to-right merge, the training recurrence and the
//! lowest-rank-first encoding of one chunk.

use vstd::prelude::*;
use crate::types::TokenId;

verus! {

/// 2^32, the radix used to pack two `u32` values into one `u64` key.
pub open spec fn radix() -> int {
    0x1_0000_0000
}

/// Packs a pair of `u32` values into one `u64` key (first component high).
pub open spec fn pair_key(p: (u32, u32)) -> u64 {
    (p.0 as int * radix() + p.1 as int) as u64
}

/// Unpacks a `u64` key into the pair it encodes.
pub open spec fn key_pair(k: u64) -> (u32, u32) {
    ((k as int / radix()) as u32, (k as int % radix()) as u32)
}

/// Lexicographic order on pairs.
pub open spec fn pair_less(p: (u32, u32), q: (u32, u32)) -> bool {
    p.0 < q.0 || (p.0 == q.0 && p.1 < q.1)
}

pub proof fn lemma_pair_key(p: (u32, u32))
    ensures
        pair_key(p) as int == p.0 as int * radix() + p.1 as int,
        key_pair(pair_key(p)) == p,
{
    let a = p.0 as int;
    let b = p.1 as int;
    assert(0 <= a * radix() + b < 0x1_0000_0000_0000_0000) by (nonlinear_arith)
        requires 0 <= a < radix(), 0 <= b < radix(), radix() == 0x1_0000_0000;
    assert((a * radix() + b) / radix() == a) by (nonlinear_arith)
        requires 0 <= a < radix(), 0 <= b < radix(), radix() == 0x1_0000_0000;
    assert((a * radix() + b) % radix() == b) by (nonlinear_arith)
        requires 0 <= a < radix(), 0 <= b < radix(), radix() == 0x1_0000_0000;
}

pub proof fn lemma_key_pair(k: u64)
    ensures
        pair_key(key_pair(k)) == k,
{
    let x = k as int;
    assert(0 <= x / radix() < radix() && 0 <= x % radix() < radix()
        && (x / radix()) * radix() + x % radix() == x) by (nonlinear_arith)
        requires 0 <= x < 0x1_0000_0000_0000_0000, radix() == 0x1_0000_0000;
}

/// Key order is the lexicographic order of the pairs.
pub proof fn lemma_key_order(p: (u32, u32), q: (u32, u32))
    ensures
        (pair_key(p) < pair_key(q)) <==> pair_less(p, q),
        (pair_key(p) == pair_key(q)) <==> p == q,
{
    lemma_pair_key(p);
    lemma_pair_key(q);
    let (a, b, c, d) = (p.0 as int, p.1 as int, q.0 as int, q.1 as int);
    assert((a * radix() + b < c * radix() + d) <==> (a < c || (a == c && b < d))) by (nonlinear_arith)
        requires 0 <= a < radix(), 0 <= b < radix(), 0 <= c < radix(), 0 <= d < radix(), radix() == 0x1_0000_0000;
}

/// Exec counterpart of [`pair_key`].
pub fn pack_pair(a: u32, b: u32) -> (k: u64)
    ensures
        k == pair_key((a, b)),
{
    proof {
        lemma_pair_key((a, b));
    }
    (a as u64) * 0x1_0000_0000u64 + (b as u64)
}

/// Exec counterpart of [`key_pair`].
pub fn unpack_pair(k: u64) -> (p: (u32, u32))
    ensures
        p == key_pair(k),
        pair_key(p) == k,
{
    proof {
        lemma_key_pair(k);
    }
    ((k / 0x1_0000_0000u64) as u32, (k % 0x1_0000_0000u64) as u32)
}

// ---------------------------------------------------------------------------
// Adjacent-pair counts
// ---------------------------------------------------------------------------

/// The adjacent pair of `t` at position `j` (meaningful when `j + 1 < t.len()`).
pub open spec fn pair_of(t: Seq<TokenId>, j: int) -> (TokenId, TokenId) {
    (t[j], t[j + 1])
}

/// Number of positions `j < q` at which the adjacent pair of `t` is `p`.
pub open spec fn num_adj_upto(t: Seq<TokenId>, p: (TokenId, TokenId), q: int) -> nat
    decreases q,
{
    if q <= 0 {
        0
    } else {
        num_adj_upto(t, p, q - 1) + (if q < t.len() && pair_of(t, q - 1) == p { 1nat } else { 0nat })
    }
}

/// Number of positions at which the adjacent pair of `t` is `p`
/// (overlapping occurrences all count).
pub open spec fn num_adj(t: Seq<TokenId>, p: (TokenId, TokenId)) -> nat {
    num_adj_upto(t, p, t.len() as int)
}

/// Weighted token sequences: tokens of a chunk and how often the chunk occurs.
pub type Weighted = Seq<(Seq<TokenId>, u32)>;

/// Weighted count of the adjacent pair `p` over all sequences.
pub open spec fn total_count(ws: Weighted, p: (TokenId, TokenId)) -> nat
    decreases ws.len(),
{
    if ws.len() == 0 {
        0
    } else {
        total_count(ws.drop_last(), p) + ws.last().1 as nat * num_adj(ws.last().0, p)
    }
}

/// Each position counts at most once.
pub proof fn lemma_num_adj_upto_bound(t: Seq<TokenId>, p: (TokenId, TokenId), q: int)
    ensures
        num_adj_upto(t, p, q) <= (if q <= 0 { 0 } else { q }),
    decreases q,
{
    if q > 0 {
        lemma_num_adj_upto_bound(t, p, q - 1);
    }
}

/// Positions at or beyond `t.len() - 1` add nothing.
pub proof fn lemma_num_adj_upto_tail(t: Seq<TokenId>, p: (TokenId, TokenId), q: int)
    requires
        q >= t.len() - 1,
    ensures
        num_adj_upto(t, p, q) == num_adj(t, p),
    decreases if q > t.len() { q - t.len() } else { t.len() - q },
{
    if q > t.len() {
        lemma_num_adj_upto_tail(t, p, q - 1);
    } else if q < t.len() {
        assert(q == t.len() - 1);
        assert(num_adj_upto(t, p, q + 1) == num_adj_upto(t, p, q));
    }
}

/// Counts only depend on the pairs at the positions they cover.
pub proof fn lemma_num_adj_upto_agree(t1: Seq<TokenId>, t2: Seq<TokenId>, p: (TokenId, TokenId), q: int)
    requires
        t1.len() == t2.len() || (q < t1.len() && q < t2.len()),
        forall|j: int| 0 <= j < q && j + 1 < t1.len() ==> pair_of(t1, j) == pair_of(t2, j),
    ensures
        num_adj_upto(t1, p, q) == num_adj_upto(t2, p, q),
    decreases q,
{
    if q > 0 {
        lemma_num_adj_upto_agree(t1, t2, p, q - 1);
    }
}

/// Counts over a suffix shifted by `d` positions.
pub proof fn lemma_num_adj_upto_shift(t1: Seq<TokenId>, t2: Seq<TokenId>, p: (TokenId, TokenId), a: int, q: int, d: int)
    requires
        0 <= a <= q,
        t1.len() + d == t2.len(),
        forall|j: int| a <= j < q && j + 1 < t1.len() ==> pair_of(t1, j) == pair_of(t2, j + d),
        0 <= a + d,
    ensures
        num_adj_upto(t1, p, q) - num_adj_upto(t1, p, a) == num_adj_upto(t2, p, q + d) - num_adj_upto(t2, p, a + d),
    decreases q - a,
{
    if q > a {
        lemma_num_adj_upto_shift(t1, t2, p, a, q - 1, d);
    }
}

/// Effect of replacing the pair at position `k` by a single token `m`.
pub proof fn lemma_num_adj_splice(t: Seq<TokenId>, k: int, m: TokenId, x: (TokenId, TokenId))
    requires
        0 <= k && k + 1 < t.len(),
    ensures
        ({
            let t2 = t.update(k, m).remove(k + 1);
            num_adj(t2, x) + (if k > 0 && (t[k - 1], t[k]) == x { 1int } else { 0 })
                + (if (t[k], t[k + 1]) == x { 1int } else { 0 })
                + (if k + 2 < t.len() && (t[k + 1], t[k + 2]) == x { 1int } else { 0 })
            == num_adj(t, x) + (if k > 0 && (t[k - 1], m) == x { 1int } else { 0 })
                + (if k + 2 < t.len() && (m, t[k + 2]) == x { 1int } else { 0 })
        }),
{
    let t2 = t.update(k, m).remove(k + 1);
    let n = t.len() as int;
    assert(t2.len() == n - 1);
    // prefix before position k - 1 is untouched
    let a = if k > 0 { k - 1 } else { 0 };
    assert forall|j: int| 0 <= j < a && j + 1 < t.len() implies pair_of(t, j) == pair_of(t2, j) by {
        assert(t2[j] == t[j]);
        assert(t2[j + 1] == t[j + 1]);
    }
    lemma_num_adj_upto_agree(t, t2, x, a);
    // suffix after position k + 1 is shifted by one
    assert forall|j: int| k + 2 <= j < n && j + 1 < t.len() implies pair_of(t, j) == pair_of(t2, j - 1) by {
        assert(t2[j - 1] == t[j]);
        assert(t2[j] == t[j + 1]);
    }
    lemma_num_adj_upto_shift(t, t2, x, k + 2, n, -1);
    // unfold the positions around the splice
    if k > 0 {
        assert(t2[k - 1] == t[k - 1]);
        assert(t2[k] == m);
        assert(num_adj_upto(t2, x, k) == num_adj_upto(t2, x, k - 1) + (if (t[k - 1], m) == x { 1nat } else { 0nat }));
        assert(num_adj_upto(t, x, k) == num_adj_upto(t, x, k - 1) + (if (t[k - 1], t[k]) == x { 1nat } else { 0nat }));
    }
    assert(num_adj_upto(t, x, k + 1) == num_adj_upto(t, x, k) + (if (t[k], t[k + 1]) == x { 1nat } else { 0nat }));
    if k + 2 < n {
        assert(t2[k + 1] == t[k + 2]);
        assert(num_adj_upto(t2, x, k + 1) == num_adj_upto(t2, x, k) + (if (m, t[k + 2]) == x { 1nat } else { 0nat }));
        assert(num_adj_upto(t, x, k + 2) == num_adj_upto(t, x, k + 1) + (if (t[k + 1], t[k + 2]) == x { 1nat } else { 0nat }));
    } else {
        assert(num_adj_upto(t2, x, k + 1) == num_adj_upto(t2, x, k));
        assert(num_adj_upto(t, x, k + 2) == num_adj_upto(t, x, k + 1));
    }
}

/// A count of zero means no position carries the pair.
pub proof fn lemma_num_adj_zero(t: Seq<TokenId>, p: (TokenId, TokenId), q: int)
    requires
        num_adj_upto(t, p, q) == 0,
    ensures
        forall|j: int| 0 <= j < q && j + 1 < t.len() ==> pair_of(t, j) != p,
    decreases q,
{
    if q > 0 {
        lemma_num_adj_upto_nonneg_step(t, p, q);
        lemma_num_adj_zero(t, p, q - 1);
    }
}

proof fn lemma_num_adj_upto_nonneg_step(t: Seq<TokenId>, p: (TokenId, TokenId), q: int)
    requires
        q > 0,
    ensures
        num_adj_upto(t, p, q - 1) <= num_adj_upto(t, p, q),
{
}

/// A position carrying the pair makes the count positive.
pub proof fn lemma_num_adj_pos(t: Seq<TokenId>, p: (TokenId, TokenId), q: int, j: int)
    requires
        0 <= j < q,
        j + 1 < t.len(),
        pair_of(t, j) == p,
    ensures
        num_adj_upto(t, p, q) > 0,
    decreases q,
{
    if q - 1 > j {
        lemma_num_adj_pos(t, p, q - 1, j);
    }
}

/// Counting over one more sequence of the prefix adds its weighted count.
pub proof fn lemma_total_count_take(ws: Weighted, a: int, p: (TokenId, TokenId))
    requires
        0 <= a < ws.len(),
    ensures
        total_count(ws.take(a + 1), p) == total_count(ws.take(a), p) + ws[a].1 as nat * num_adj(ws[a].0, p),
{
    assert(ws.take(a + 1).drop_last() =~= ws.take(a));
    assert(ws.take(a + 1).last() == ws[a]);
}

/// The count over a prefix of the sequences is at most the whole count.
pub proof fn lemma_total_count_take_le(ws: Weighted, a: int, p: (TokenId, TokenId))
    requires
        0 <= a <= ws.len(),
    ensures
        total_count(ws.take(a), p) <= total_count(ws, p),
    decreases ws.len() - a,
{
    if a < ws.len() {
        lemma_total_count_take(ws, a, p);
        lemma_total_count_take_le(ws, a + 1, p);
    } else {
        assert(ws.take(a) =~= ws);
    }
}

/// Counting up to a larger position counts at least as much.
pub proof fn lemma_num_adj_upto_mono(t: Seq<TokenId>, p: (TokenId, TokenId), q1: int, q2: int)
    requires
        q1 <= q2,
    ensures
        num_adj_upto(t, p, q1) <= num_adj_upto(t, p, q2),
    decreases q2 - q1,
{
    if q1 < q2 {
        lemma_num_adj_upto_mono(t, p, q1, q2 - 1);
    }
}

/// Replacing sequence `i` changes the total by the weighted difference at `i`.
pub proof fn lemma_total_count_update(ws: Weighted, i: int, t: Seq<TokenId>, p: (TokenId, TokenId))
    requires
        0 <= i < ws.len(),
    ensures
        total_count(ws.update(i, (t, ws[i].1)), p) as int
            == total_count(ws, p) as int + ws[i].1 as int * (num_adj(t, p) as int - num_adj(ws[i].0, p) as int),
    decreases ws.len(),
{
    let ws2 = ws.update(i, (t, ws[i].1));
    let f = ws[i].1 as int;
    if i == ws.len() - 1 {
        assert(ws2.drop_last() =~= ws.drop_last());
        let a = num_adj(t, p) as int;
        let b = num_adj(ws[i].0, p) as int;
        assert(f * a == f * b + f * (a - b)) by (nonlinear_arith);
    } else {
        assert(ws2.drop_last() =~= ws.drop_last().update(i, (t, ws[i].1)));
        lemma_total_count_update(ws.drop_last(), i, t, p);
    }
}

/// The total count is at least the weighted count of any one sequence.
pub proof fn lemma_total_count_ge(ws: Weighted, i: int, p: (TokenId, TokenId))
    requires
        0 <= i < ws.len(),
    ensures
        total_count(ws, p) >= ws[i].1 as nat * num_adj(ws[i].0, p),
    decreases ws.len(),
{
    if i < ws.len() - 1 {
        lemma_total_count_ge(ws.drop_last(), i, p);
    }
}

/// The total count vanishes when every sequence has no occurrence.
pub proof fn lemma_total_count_zero(ws: Weighted, p: (TokenId, TokenId))
    requires
        forall|i: int| 0 <= i < ws.len() ==> num_adj(#[trigger] ws[i].0, p) == 0,
    ensures
        total_count(ws, p) == 0,
    decreases ws.len(),
{
    if ws.len() > 0 {
        assert forall|i: int| 0 <= i < ws.drop_last().len() implies num_adj(#[trigger] ws.drop_last()[i].0, p) == 0 by {
            assert(ws.drop_last()[i] == ws[i]);
        }
        lemma_total_count_zero(ws.drop_last(), p);
        assert(num_adj(ws[ws.len() - 1].0, p) == 0);
    }
}

/// A positive total count comes from some sequence with an occurrence.
pub proof fn lemma_total_count_pos(ws: Weighted, p: (TokenId, TokenId)) -> (i: int)
    requires
        total_count(ws, p) > 0,
    ensures
        0 <= i < ws.len(),
        num_adj(ws[i].0, p) > 0,
    decreases ws.len(),
{
    if ws.len() == 0 {
        0
    } else if num_adj(ws.last().0, p) > 0 {
        (ws.len() - 1) as int
    } else {
        assert(ws.last().1 as nat * num_adj(ws.last().0, p) == 0);
        lemma_total_count_pos(ws.drop_last(), p)
    }
}

/// Two positions carrying the pair make the count at least two.
pub proof fn lemma_num_adj_pos2(t: Seq<TokenId>, p: (TokenId, TokenId), q: int, j1: int, j2: int)
    requires
        0 <= j1 < j2 < q,
        j2 + 1 < t.len(),
        pair_of(t, j1) == p,
        pair_of(t, j2) == p,
    ensures
        num_adj_upto(t, p, q) >= 2,
    decreases q,
{
    if q - 1 > j2 {
        lemma_num_adj_pos2(t, p, q - 1, j1, j2);
    } else {
        lemma_num_adj_pos(t, p, q - 1, j1);
    }
}

/// Two different sequences contribute separately to the total.
pub proof fn lemma_total_count_ge2(ws: Weighted, i1: int, i2: int, p: (TokenId, TokenId))
    requires
        0 <= i1 < i2 < ws.len(),
    ensures
        total_count(ws, p) >= ws[i1].1 as nat * num_adj(ws[i1].0, p) + ws[i2].1 as nat * num_adj(ws[i2].0, p),
    decreases ws.len(),
{
    if i2 < ws.len() - 1 {
        lemma_total_count_ge2(ws.drop_last(), i1, i2, p);
    } else {
        lemma_total_count_ge(ws.drop_last(), i1, p);
    }
}

/// How the count of `x` in `t` changes when the pair at position `k` becomes `m`.
pub open spec fn splice_delta(t: Seq<TokenId>, k: int, m: TokenId, x: (TokenId, TokenId)) -> int {
    (if k > 0 && (t[k - 1], m) == x { 1int } else { 0 })
    + (if k + 2 < t.len() && (m, t[k + 2]) == x { 1int } else { 0 })
    - (if k > 0 && (t[k - 1], t[k]) == x { 1int } else { 0 })
    - (if (t[k], t[k + 1]) == x { 1int } else { 0 })
    - (if k + 2 < t.len() && (t[k + 1], t[k + 2]) == x { 1int } else { 0 })
}

/// Count change of every pair when sequence `i` is spliced at position `k`.
pub proof fn lemma_splice_counts(ws: Weighted, i: int, k: int, m: TokenId)
    requires
        0 <= i < ws.len(),
        0 <= k && k + 1 < ws[i].0.len(),
    ensures
        forall|x: (TokenId, TokenId)| #[trigger] total_count(ws.update(i, (ws[i].0.update(k, m).remove(k + 1), ws[i].1)), x) as int
            == total_count(ws, x) as int + ws[i].1 as int * splice_delta(ws[i].0, k, m, x),
{
    let t = ws[i].0;
    let t2 = t.update(k, m).remove(k + 1);
    assert forall|x: (TokenId, TokenId)| #[trigger] total_count(ws.update(i, (t2, ws[i].1)), x) as int
        == total_count(ws, x) as int + ws[i].1 as int * splice_delta(t, k, m, x) by {
        lemma_num_adj_splice(t, k, m, x);
        lemma_total_count_update(ws, i, t2, x);
    }
}

// ---------------------------------------------------------------------------
// Greedy left-to-right merge of one pair
// ---------------------------------------------------------------------------

/// Replaces, scanning left to right, every non-overlapping occurrence of `p` by `m`.
pub open spec fn merge_all(t: Seq<TokenId>, p: (TokenId, TokenId), m: TokenId) -> Seq<TokenId>
    decreases t.len(),
{
    if t.len() < 2 {
        t
    } else if (t[0], t[1]) == p {
        seq![m] + merge_all(t.subrange(2, t.len() as int), p, m)
    } else {
        seq![t[0]] + merge_all(t.subrange(1, t.len() as int), p, m)
    }
}

/// Merges `p` into `m` in every weighted sequence.
pub open spec fn merge_ws(ws: Weighted, p: (TokenId, TokenId), m: TokenId) -> Weighted {
    Seq::new(ws.len(), |i: int| (merge_all(ws[i].0, p, m), ws[i].1))
}

/// When no occurrence starts in `C[q..q2]`, the greedy merge passes over it unchanged.
pub proof fn lemma_merge_all_skip(c: Seq<TokenId>, p: (TokenId, TokenId), m: TokenId, q: int, q2: int)
    requires
        0 <= q <= q2 <= c.len(),
        forall|j: int| q <= j < q2 && j + 1 < c.len() ==> pair_of(c, j) != p,
    ensures
        merge_all(c.subrange(q, c.len() as int), p, m)
            == c.subrange(q, q2) + merge_all(c.subrange(q2, c.len() as int), p, m),
    decreases q2 - q,
{
    if q < q2 {
        let s = c.subrange(q, c.len() as int);
        if s.len() >= 2 {
            assert(s[0] == c[q] && s[1] == c[q + 1]);
            assert(pair_of(c, q) != p);
            assert(s.subrange(1, s.len() as int) =~= c.subrange(q + 1, c.len() as int));
        } else {
            assert(q2 == c.len());
            assert(c.subrange(q2, c.len() as int) =~= Seq::<TokenId>::empty());
            assert(s =~= c.subrange(q, q2));
            return;
        }
        lemma_merge_all_skip(c, p, m, q + 1, q2);
        assert(seq![c[q]] + c.subrange(q + 1, q2) =~= c.subrange(q, q2));
        assert(seq![c[q]] + (c.subrange(q + 1, q2) + merge_all(c.subrange(q2, c.len() as int), p, m))
            =~= c.subrange(q, q2) + merge_all(c.subrange(q2, c.len() as int), p, m));
    } else {
        assert(c.subrange(q, q2) =~= Seq::<TokenId>::empty());
        assert(Seq::<TokenId>::empty() + merge_all(c.subrange(q2, c.len() as int), p, m)
            =~= merge_all(c.subrange(q2, c.len() as int), p, m));
    }
}

/// One greedy merge step at position `q`.
pub proof fn lemma_merge_all_step(c: Seq<TokenId>, p: (TokenId, TokenId), m: TokenId, q: int)
    requires
        0 <= q && q + 1 < c.len(),
        pair_of(c, q) == p,
    ensures
        ({
            let c2 = c.update(q, m).remove(q + 1);
            c.subrange(0, q) + merge_all(c.subrange(q, c.len() as int), p, m)
                == c2.subrange(0, q + 1) + merge_all(c2.subrange(q + 1, c2.len() as int), p, m)
        }),
{
    let c2 = c.update(q, m).remove(q + 1);
    let s = c.subrange(q, c.len() as int);
    assert(s[0] == c[q] && s[1] == c[q + 1]);
    assert(s.subrange(2, s.len() as int) =~= c.subrange(q + 2, c.len() as int));
    assert(c2.subrange(q + 1, c2.len() as int) =~= c.subrange(q + 2, c.len() as int));
    assert(c2.subrange(0, q + 1) =~= c.subrange(0, q) + seq![m]);
    assert(c.subrange(0, q) + (seq![m] + merge_all(c.subrange(q + 2, c.len() as int), p, m))
        =~= (c.subrange(0, q) + seq![m]) + merge_all(c.subrange(q + 2, c.len() as int), p, m));
}

/// The greedy merge leaves no occurrence of `p` behind when `m` is fresh.
pub proof fn lemma_merge_all_no_pair(t: Seq<TokenId>, p: (TokenId, TokenId), m: TokenId)
    requires
        m != p.0,
        m != p.1,
    ensures
        num_adj(merge_all(t, p, m), p) == 0,
    decreases t.len(),
{
    let r = merge_all(t, p, m);
    if t.len() >= 2 {
        if (t[0], t[1]) == p {
            let rest = t.subrange(2, t.len() as int);
            lemma_merge_all_no_pair(rest, p, m);
            lemma_num_adj_cons(m, merge_all(rest, p, m), p);
        } else {
            let rest = t.subrange(1, t.len() as int);
            lemma_merge_all_no_pair(rest, p, m);
            lemma_num_adj_cons(t[0], merge_all(rest, p, m), p);
            lemma_merge_all_first(rest, p, m);
        }
    } else {
        lemma_num_adj_upto_bound(t, p, t.len() as int);
        if t.len() == 1 {
            assert(num_adj_upto(t, p, 1) == num_adj_upto(t, p, 0));
        }
    }
}

/// The first token of a greedy merge, when the second token of the input
/// cannot start an occurrence together with `t[0]`.
proof fn lemma_merge_all_first(t: Seq<TokenId>, p: (TokenId, TokenId), m: TokenId)
    ensures
        t.len() > 0 ==> merge_all(t, p, m).len() > 0,
        t.len() > 0 ==> (merge_all(t, p, m)[0] == t[0] || merge_all(t, p, m)[0] == m),
        t.len() > 0 && (t.len() < 2 || (t[0], t[1]) != p) ==> merge_all(t, p, m)[0] == t[0],
        t.len() >= 2 && (t[0], t[1]) == p ==> merge_all(t, p, m)[0] == m,
{
}

/// Counting over a sequence with one more token in front.
pub proof fn lemma_num_adj_cons(a: TokenId, t: Seq<TokenId>, p: (TokenId, TokenId))
    ensures
        num_adj(seq![a] + t, p) == num_adj(t, p) + (if t.len() > 0 && (a, t[0]) == p { 1nat } else { 0nat }),
{
    let s = seq![a] + t;
    assert forall|j: int| 1 <= j < s.len() && j + 1 < s.len() implies pair_of(s, j) == pair_of(t, j - 1) by {
        assert(s[j] == t[j - 1]);
        assert(s[j + 1] == t[j]);
    }
    lemma_num_adj_upto_shift(s, t, p, 1, s.len() as int, -1);
    assert(num_adj_upto(t, p, 0) == 0);
    assert(num_adj_upto(s, p, 0) == 0);
    assert(s[0] == a);
    if t.len() > 0 {
        assert(s[1] == t[0]);
        assert(num_adj_upto(s, p, 1) == (if (a, t[0]) == p { 1nat } else { 0nat }));
    } else {
        assert(num_adj_upto(s, p, 1) == 0);
    }
}

// ---------------------------------------------------------------------------
// Training recurrence
// ---------------------------------------------------------------------------

/// Some pair occurs in the weighted sequences.
pub open spec fn has_pair(ws: Weighted) -> bool {
    exists|p: (TokenId, TokenId)| #[trigger] total_count(ws, p) > 0
}

/// `p` has the highest weighted count, ties broken by the smallest pair.
pub open spec fn is_best_pair(ws: Weighted, p: (TokenId, TokenId)) -> bool {
    &&& total_count(ws, p) > 0
    &&& forall|q: (TokenId, TokenId)| #[trigger] total_count(ws, q) > 0 ==>
            total_count(ws, q) < total_count(ws, p)
            || (total_count(ws, q) == total_count(ws, p) && !pair_less(q, p))
}

/// The pair the trainer merges next.
pub open spec fn best_pair(ws: Weighted) -> (TokenId, TokenId) {
    choose|p: (TokenId, TokenId)| is_best_pair(ws, p)
}

pub proof fn lemma_best_pair_unique(ws: Weighted, p: (TokenId, TokenId))
    requires
        is_best_pair(ws, p),
    ensures
        best_pair(ws) == p,
        has_pair(ws),
{
    let q = best_pair(ws);
    assert(is_best_pair(ws, q));
    assert(total_count(ws, q) > 0);
    assert(total_count(ws, p) > 0);
    if q != p {
        assert(pair_less(p, q) || pair_less(q, p));
    }
}

/// The adjacent pairs of one sequence.
pub open spec fn adjacent_pairs(t: Seq<TokenId>) -> Set<(TokenId, TokenId)> {
    Seq::new((if t.len() > 0 { t.len() - 1 } else { 0int }) as nat, |j: int| pair_of(t, j)).to_set()
}

/// The adjacent pairs of all sequences.
pub open spec fn ws_pairs(ws: Weighted) -> Set<(TokenId, TokenId)>
    decreases ws.len(),
{
    if ws.len() == 0 {
        Set::empty()
    } else {
        ws_pairs(ws.drop_last()).union(adjacent_pairs(ws.last().0))
    }
}

proof fn lemma_ws_pairs_finite(ws: Weighted)
    ensures
        ws_pairs(ws).finite(),
    decreases ws.len(),
{
    broadcast use vstd::seq_lib::seq_to_set_is_finite, vstd::set::axiom_set_union_finite;
    if ws.len() > 0 {
        lemma_ws_pairs_finite(ws.drop_last());
    }
}

proof fn lemma_count_pos_in_pairs(ws: Weighted, p: (TokenId, TokenId))
    requires
        total_count(ws, p) > 0,
    ensures
        ws_pairs(ws).contains(p),
    decreases ws.len(),
{
    let t = ws.last().0;
    if num_adj(t, p) > 0 {
        if !(exists|j: int| 0 <= j && j + 1 < t.len() && pair_of(t, j) == p) {
            lemma_num_adj_none(t, p, t.len() as int);
        }
        let j = choose|j: int| 0 <= j && j + 1 < t.len() && pair_of(t, j) == p;
        let s = Seq::new((if t.len() > 0 { t.len() - 1 } else { 0int }) as nat, |k: int| pair_of(t, k));
        assert(s[j] == p);
        assert(adjacent_pairs(t).contains(p));
    } else {
        let f = ws.last().1 as nat;
        let n = num_adj(t, p);
        assert(f * n == 0) by (nonlinear_arith) requires n == 0;
        lemma_count_pos_in_pairs(ws.drop_last(), p);
    }
}

/// `x` is at least as good a merge candidate as `y`.
pub open spec fn candidate_le(ws: Weighted, x: (TokenId, TokenId), y: (TokenId, TokenId)) -> bool {
    total_count(ws, x) > total_count(ws, y) || (total_count(ws, x) == total_count(ws, y) && !pair_less(y, x))
}

/// Whenever some pair occurs, a best pair exists (and is the one the trainer
/// merges next).
pub proof fn lemma_best_pair_exists(ws: Weighted)
    requires
        has_pair(ws),
    ensures
        is_best_pair(ws, best_pair(ws)),
{
    broadcast use vstd::set::axiom_set_intersect_finite;
    let q = choose|q: (TokenId, TokenId)| #[trigger] total_count(ws, q) > 0;
    lemma_ws_pairs_finite(ws);
    let pos = Set::new(|p: (TokenId, TokenId)| total_count(ws, p) > 0);
    let s = ws_pairs(ws).intersect(pos);
    lemma_count_pos_in_pairs(ws, q);
    assert(s.contains(q));
    assert(s.finite());
    assert(s.len() > 0) by {
        if s.len() == 0 {
            s.lemma_len0_is_empty();
        }
    }
    let r = |x: (TokenId, TokenId), y: (TokenId, TokenId)| candidate_le(ws, x, y);
    assert(vstd::relations::total_ordering(r)) by {
        assert forall|x: (TokenId, TokenId), y: (TokenId, TokenId)| #[trigger] r(x, y) && #[trigger] r(y, x) implies x == y by {
            if x != y {
                assert(pair_less(x, y) || pair_less(y, x));
            }
        }
        assert forall|x: (TokenId, TokenId), y: (TokenId, TokenId)| #[trigger] r(x, y) || #[trigger] r(y, x) by {
            if !r(x, y) && !r(y, x) {
                assert(pair_less(y, x) && pair_less(x, y));
            }
        }
        assert forall|x: (TokenId, TokenId), y: (TokenId, TokenId), z: (TokenId, TokenId)|
            #[trigger] r(x, y) && #[trigger] r(y, z) implies r(x, z) by {}
    }
    s.find_unique_minimal_ensures(r);
    let m = s.find_unique_minimal(r);
    assert(is_best_pair(ws, m)) by {
        assert forall|x: (TokenId, TokenId)| #[trigger] total_count(ws, x) > 0 implies
            total_count(ws, x) < total_count(ws, m) || (total_count(ws, x) == total_count(ws, m) && !pair_less(x, m)) by {
            lemma_count_pos_in_pairs(ws, x);
            assert(s.contains(x));
            if !r(m, x) {
                assert(r(x, m));
            }
        }
    }
}

/// Ids handed to learned merges: `lo..hi` without the reserved ones.
pub open spec fn merge_ids(lo: int, hi: int, reserved: Set<TokenId>) -> Seq<TokenId>
    decreases hi - lo,
{
    if lo >= hi {
        seq![]
    } else if reserved.contains(lo as TokenId) {
        merge_ids(lo + 1, hi, reserved)
    } else {
        seq![lo as TokenId] + merge_ids(lo + 1, hi, reserved)
    }
}

/// Every id of `merge_ids(lo, hi, r)` lies in `lo..hi`.
pub proof fn lemma_merge_ids_range(lo: int, hi: int, reserved: Set<TokenId>)
    requires
        0 <= lo,
        hi <= u32::MAX + 1,
    ensures
        forall|j: int| 0 <= j < merge_ids(lo, hi, reserved).len() ==>
            lo <= #[trigger] merge_ids(lo, hi, reserved)[j] < hi,
    decreases hi - lo,
{
    if lo < hi {
        lemma_merge_ids_range(lo + 1, hi, reserved);
        let r = merge_ids(lo + 1, hi, reserved);
        if !reserved.contains(lo as TokenId) {
            assert forall|j: int| 0 <= j < merge_ids(lo, hi, reserved).len() implies
                lo <= #[trigger] merge_ids(lo, hi, reserved)[j] < hi by {
                if j > 0 {
                    assert(merge_ids(lo, hi, reserved)[j] == r[j - 1]);
                }
            }
        }
    }
}

/// The merges learned from `ws` when handing out `ids` in order: repeatedly take
/// the best pair, give it the next id, and merge it everywhere.
pub open spec fn train_merges(ws: Weighted, ids: Seq<TokenId>) -> Seq<((TokenId, TokenId), TokenId)>
    decreases ids.len(),
{
    if ids.len() == 0 || !has_pair(ws) {
        seq![]
    } else {
        let p = best_pair(ws);
        seq![(p, ids[0])] + train_merges(merge_ws(ws, p, ids[0]), ids.drop_first())
    }
}

/// The weighted sequences after applying `merges` one after the other, each
/// merging its pair greedily from the left everywhere.
pub open spec fn apply_merges(ws: Weighted, merges: Seq<((TokenId, TokenId), TokenId)>) -> Weighted
    decreases merges.len(),
{
    if merges.len() == 0 {
        ws
    } else {
        apply_merges(merge_ws(ws, merges[0].0, merges[0].1), merges.drop_first())
    }
}

/// Applying one more merge merges it into the result.
pub proof fn lemma_apply_merges_push(ws: Weighted, merges: Seq<((TokenId, TokenId), TokenId)>, x: ((TokenId, TokenId), TokenId))
    ensures
        apply_merges(ws, merges.push(x)) == merge_ws(apply_merges(ws, merges), x.0, x.1),
    decreases merges.len(),
{
    let s2 = merges.push(x);
    if merges.len() == 0 {
        assert(s2.drop_first() =~= Seq::<((TokenId, TokenId), TokenId)>::empty());
        assert(s2[0] == x);
        assert(apply_merges(ws, merges) == ws);
        assert(apply_merges(merge_ws(ws, x.0, x.1), s2.drop_first()) == merge_ws(ws, x.0, x.1));
        assert(apply_merges(ws, s2) == apply_merges(merge_ws(ws, s2[0].0, s2[0].1), s2.drop_first()));
    } else {
        assert(s2.drop_first() =~= merges.drop_first().push(x));
        assert(s2[0] == merges[0]);
        assert(apply_merges(ws, s2) == apply_merges(merge_ws(ws, s2[0].0, s2[0].1), s2.drop_first()));
        lemma_apply_merges_push(merge_ws(ws, merges[0].0, merges[0].1), merges.drop_first(), x);
    }
}

/// The vocabulary after recording `merges`: each merged id maps to the
/// concatenation of the bytes of its two parts.
pub open spec fn vocab_after(v: Map<TokenId, Seq<u8>>, merges: Seq<((TokenId, TokenId), TokenId)>) -> Map<TokenId, Seq<u8>>
    decreases merges.len(),
{
    if merges.len() == 0 {
        v
    } else {
        let ((a, b), m) = merges[0];
        vocab_after(v.insert(m, v[a] + v[b]), merges.drop_first())
    }
}

/// The merge table after recording `merges`.
pub open spec fn merges_map(mm: Map<(TokenId, TokenId), TokenId>, merges: Seq<((TokenId, TokenId), TokenId)>) -> Map<(TokenId, TokenId), TokenId>
    decreases merges.len(),
{
    if merges.len() == 0 {
        mm
    } else {
        merges_map(mm.insert(merges[0].0, merges[0].1), merges.drop_first())
    }
}

/// Recording one more merge extends the merge table by it.
pub proof fn lemma_merges_map_push(
    mm: Map<(TokenId, TokenId), TokenId>,
    merges: Seq<((TokenId, TokenId), TokenId)>,
    x: ((TokenId, TokenId), TokenId),
)
    ensures
        merges_map(mm, merges.push(x)) == merges_map(mm, merges).insert(x.0, x.1),
    decreases merges.len(),
{
    let s2 = merges.push(x);
    assert(s2.len() > 0);
    if merges.len() == 0 {
        assert(s2.drop_first() =~= Seq::<((TokenId, TokenId), TokenId)>::empty());
        assert(s2[0] == x);
        assert(merges_map(mm, s2) == merges_map(mm.insert(x.0, x.1), s2.drop_first()));
    } else {
        assert(s2.drop_first() =~= merges.drop_first().push(x));
        assert(s2[0] == merges[0]);
        lemma_merges_map_push(mm.insert(merges[0].0, merges[0].1), merges.drop_first(), x);
    }
}

/// Recording one more merge adds the concatenated bytes of its parts.
pub proof fn lemma_vocab_after_push(
    v: Map<TokenId, Seq<u8>>,
    merges: Seq<((TokenId, TokenId), TokenId)>,
    x: ((TokenId, TokenId), TokenId),
)
    ensures
        ({
            let w = vocab_after(v, merges);
            vocab_after(v, merges.push(x)) == w.insert(x.1, w[x.0.0] + w[x.0.1])
        }),
    decreases merges.len(),
{
    let s2 = merges.push(x);
    assert(s2.len() > 0);
    if merges.len() == 0 {
        assert(s2.drop_first() =~= Seq::<((TokenId, TokenId), TokenId)>::empty());
        assert(s2[0] == x);
        assert(vocab_after(v, s2) == vocab_after(v.insert(x.1, v[x.0.0] + v[x.0.1]), s2.drop_first()));
    } else {
        let ((a, b), m) = merges[0];
        assert(s2.drop_first() =~= merges.drop_first().push(x));
        assert(s2[0] == merges[0]);
        lemma_vocab_after_push(v.insert(m, v[a] + v[b]), merges.drop_first(), x);
    }
}

/// Every token of `t` lies in `s`.
pub open spec fn tokens_in(t: Seq<TokenId>, s: Set<TokenId>) -> bool {
    forall|j: int| 0 <= j < t.len() ==> s.contains(#[trigger] t[j])
}

/// The greedy merge only introduces the merged token.
pub proof fn lemma_merge_all_tokens(t: Seq<TokenId>, p: (TokenId, TokenId), m: TokenId, s: Set<TokenId>)
    requires
        tokens_in(t, s),
    ensures
        tokens_in(merge_all(t, p, m), s.insert(m)),
    decreases t.len(),
{
    let r = merge_all(t, p, m);
    if t.len() >= 2 {
        if (t[0], t[1]) == p {
            let rest = t.subrange(2, t.len() as int);
            assert(tokens_in(rest, s)) by {
                assert forall|j: int| 0 <= j < rest.len() implies s.contains(#[trigger] rest[j]) by {
                    assert(rest[j] == t[j + 2]);
                }
            }
            lemma_merge_all_tokens(rest, p, m, s);
            assert forall|j: int| 0 <= j < r.len() implies s.insert(m).contains(#[trigger] r[j]) by {
                if j > 0 {
                    assert(r[j] == merge_all(rest, p, m)[j - 1]);
                }
            }
        } else {
            let rest = t.subrange(1, t.len() as int);
            assert(tokens_in(rest, s)) by {
                assert forall|j: int| 0 <= j < rest.len() implies s.contains(#[trigger] rest[j]) by {
                    assert(rest[j] == t[j + 1]);
                }
            }
            lemma_merge_all_tokens(rest, p, m, s);
            assert forall|j: int| 0 <= j < r.len() implies s.insert(m).contains(#[trigger] r[j]) by {
                if j > 0 {
                    assert(r[j] == merge_all(rest, p, m)[j - 1]);
                } else {
                    assert(r[0] == t[0]);
                }
            }
        }
    }
}

/// Every token of every weighted sequence lies in `s`.
pub open spec fn ws_tokens_in(ws: Weighted, s: Set<TokenId>) -> bool {
    forall|i: int| 0 <= i < ws.len() ==> tokens_in(#[trigger] ws[i].0, s)
}

/// Merging `p` everywhere only introduces `m`.
pub proof fn lemma_merge_ws_tokens(ws: Weighted, p: (TokenId, TokenId), m: TokenId, s: Set<TokenId>)
    requires
        ws_tokens_in(ws, s),
    ensures
        ws_tokens_in(merge_ws(ws, p, m), s.insert(m)),
{
    assert forall|i: int| 0 <= i < merge_ws(ws, p, m).len() implies tokens_in(#[trigger] merge_ws(ws, p, m)[i].0, s.insert(m)) by {
        lemma_merge_all_tokens(ws[i].0, p, m, s);
    }
}

/// A pair that occurs somewhere is made of tokens that occur somewhere.
pub proof fn lemma_pair_tokens_in(ws: Weighted, p: (TokenId, TokenId), s: Set<TokenId>)
    requires
        ws_tokens_in(ws, s),
        total_count(ws, p) > 0,
    ensures
        s.contains(p.0),
        s.contains(p.1),
{
    let i = lemma_total_count_pos(ws, p);
    let t = ws[i].0;
    if !(exists|j: int| 0 <= j && j + 1 < t.len() && pair_of(t, j) == p) {
        lemma_num_adj_none(t, p, t.len() as int);
    }
    let j = choose|j: int| 0 <= j && j + 1 < t.len() && pair_of(t, j) == p;
    assert(tokens_in(t, s));
    assert(s.contains(t[j]) && s.contains(t[j + 1]));
}

/// Without a position carrying the pair the count is zero.
pub proof fn lemma_num_adj_none(t: Seq<TokenId>, p: (TokenId, TokenId), q: int)
    requires
        forall|j: int| 0 <= j && j + 1 < t.len() ==> pair_of(t, j) != p,
    ensures
        num_adj_upto(t, p, q) == 0,
    decreases q,
{
    if q > 0 {
        lemma_num_adj_none(t, p, q - 1);
    }
}

/// No pair is left to merge after the greedy merge of the best one.
pub proof fn lemma_merge_ws_no_pair(ws: Weighted, p: (TokenId, TokenId), m: TokenId)
    requires
        m != p.0,
        m != p.1,
    ensures
        total_count(merge_ws(ws, p, m), p) == 0,
{
    let ws2 = merge_ws(ws, p, m);
    assert forall|i: int| 0 <= i < ws2.len() implies num_adj(#[trigger] ws2[i].0, p) == 0 by {
        lemma_merge_all_no_pair(ws[i].0, p, m);
    }
    lemma_total_count_zero(ws2, p);
}

// ---------------------------------------------------------------------------
// Encoding one chunk
// ---------------------------------------------------------------------------

/// A learned merge applies at position `j` of `t`.
pub open spec fn mergeable(mm: Map<(TokenId, TokenId), TokenId>, t: Seq<TokenId>, j: int) -> bool {
    0 <= j && j + 1 < t.len() && mm.contains_key(pair_of(t, j))
}

/// Position `j` carries the merge with the smallest id, leftmost among equals.
pub open spec fn is_lowest_merge(mm: Map<(TokenId, TokenId), TokenId>, t: Seq<TokenId>, j: int) -> bool {
    &&& mergeable(mm, t, j)
    &&& forall|i: int| #[trigger] mergeable(mm, t, i) ==>
            mm[pair_of(t, j)] < mm[pair_of(t, i)] || (mm[pair_of(t, j)] == mm[pair_of(t, i)] && j <= i)
}

/// Applies the learned merges to one chunk: while some merge applies, apply the
/// one with the smallest id at its leftmost position.
pub open spec fn encode_chunk(mm: Map<(TokenId, TokenId), TokenId>, t: Seq<TokenId>) -> Seq<TokenId>
    decreases t.len(),
{
    if exists|j: int| is_lowest_merge(mm, t, j) {
        let j = choose|j: int| is_lowest_merge(mm, t, j);
        encode_chunk(mm, t.update(j, mm[pair_of(t, j)]).remove(j + 1))
    } else {
        t
    }
}

pub proof fn lemma_lowest_merge_unique(mm: Map<(TokenId, TokenId), TokenId>, t: Seq<TokenId>, j: int, i: int)
    requires
        is_lowest_merge(mm, t, j),
        is_lowest_merge(mm, t, i),
    ensures
        i == j,
{
    assert(mergeable(mm, t, i));
    assert(mergeable(mm, t, j));
}

// ---------------------------------------------------------------------------
// Spelling merged tokens out again
// ---------------------------------------------------------------------------

/// Token `a` with the merged token `m` spelled out as the pair `p`.
pub open spec fn expand_token(a: TokenId, p: (TokenId, TokenId), m: TokenId) -> Seq<TokenId> {
    if a == m { seq![p.0, p.1] } else { seq![a] }
}

/// `t` with every `m` spelled out as the pair `p`.
pub open spec fn unmerge(t: Seq<TokenId>, p: (TokenId, TokenId), m: TokenId) -> Seq<TokenId>
    decreases t.len(),
{
    if t.len() == 0 {
        seq![]
    } else {
        expand_token(t[0], p, m) + unmerge(t.drop_first(), p, m)
    }
}

/// Every sequence with `m` spelled out as `p`.
pub open spec fn unmerge_ws(ws: Weighted, p: (TokenId, TokenId), m: TokenId) -> Weighted {
    Seq::new(ws.len(), |i: int| (unmerge(ws[i].0, p, m), ws[i].1))
}

/// The pair that the adjacent pair `x` becomes once `m` is spelled out as `p`:
/// the last token of its left side and the first token of its right side.
pub open spec fn lift_pair(x: (TokenId, TokenId), p: (TokenId, TokenId), m: TokenId) -> (TokenId, TokenId) {
    (if x.0 == m { p.1 } else { x.0 }, if x.1 == m { p.0 } else { x.1 })
}

/// Every pair count fits the `u32` counters.
pub open spec fn counts_fit(ws: Weighted) -> bool {
    forall|q: (TokenId, TokenId)| #[trigger] total_count(ws, q) <= u32::MAX
}

/// Spelling out commutes with concatenation.
pub proof fn lemma_unmerge_append(a: Seq<TokenId>, b: Seq<TokenId>, p: (TokenId, TokenId), m: TokenId)
    ensures
        unmerge(a + b, p, m) == unmerge(a, p, m) + unmerge(b, p, m),
    decreases a.len(),
{
    if a.len() == 0 {
        assert(a + b =~= b);
        assert(unmerge(a, p, m) + unmerge(b, p, m) =~= unmerge(b, p, m));
    } else {
        assert((a + b).drop_first() =~= a.drop_first() + b);
        assert((a + b)[0] == a[0]);
        lemma_unmerge_append(a.drop_first(), b, p, m);
        assert(unmerge(a + b, p, m) =~= unmerge(a, p, m) + unmerge(b, p, m));
    }
}

/// A sequence without `m` is its own spelling out.
pub proof fn lemma_unmerge_fresh(t: Seq<TokenId>, p: (TokenId, TokenId), m: TokenId)
    requires
        forall|j: int| 0 <= j < t.len() ==> t[j] != m,
    ensures
        unmerge(t, p, m) == t,
    decreases t.len(),
{
    if t.len() > 0 {
        lemma_unmerge_fresh(t.drop_first(), p, m);
        assert(unmerge(t, p, m) =~= t);
    }
}

/// Weighted sequences whose tokens all lie in `s`, which lacks `m`, are their
/// own spelling out.
pub proof fn lemma_unmerge_ws_fresh(ws: Weighted, p: (TokenId, TokenId), m: TokenId, s: Set<TokenId>)
    requires
        ws_tokens_in(ws, s),
        !s.contains(m),
    ensures
        unmerge_ws(ws, p, m) == ws,
{
    assert forall|i: int| 0 <= i < ws.len() implies #[trigger] unmerge_ws(ws, p, m)[i] == ws[i] by {
        assert(tokens_in(ws[i].0, s));
        assert forall|j: int| 0 <= j < ws[i].0.len() implies ws[i].0[j] != m by {
            assert(s.contains(ws[i].0[j]));
        }
        lemma_unmerge_fresh(ws[i].0, p, m);
    }
    assert(unmerge_ws(ws, p, m) =~= ws);
}

/// Merging one occurrence of `p` into `m` leaves the spelling out unchanged.
pub proof fn lemma_unmerge_splice(t: Seq<TokenId>, k: int, p: (TokenId, TokenId), m: TokenId)
    requires
        0 <= k && k + 1 < t.len(),
        t[k] == p.0,
        t[k + 1] == p.1,
        p.0 != m,
        p.1 != m,
    ensures
        unmerge(t.update(k, m).remove(k + 1), p, m) == unmerge(t, p, m),
{
    let a = t.take(k);
    let c = t.skip(k + 2);
    let t2 = t.update(k, m).remove(k + 1);
    assert(t =~= a + (seq![p.0, p.1] + c));
    assert(t2 =~= a + (seq![m] + c));
    lemma_unmerge_append(a, seq![p.0, p.1] + c, p, m);
    lemma_unmerge_append(seq![p.0, p.1], c, p, m);
    lemma_unmerge_append(a, seq![m] + c, p, m);
    lemma_unmerge_append(seq![m], c, p, m);
    lemma_unmerge_fresh(seq![p.0, p.1], p, m);
    assert(seq![m].drop_first() =~= Seq::<TokenId>::empty());
    assert(unmerge(Seq::<TokenId>::empty(), p, m) == Seq::<TokenId>::empty());
    assert(seq![m][0] == m);
    assert(unmerge(seq![m], p, m) == expand_token(m, p, m) + unmerge(seq![m].drop_first(), p, m));
    assert(unmerge(seq![m], p, m) =~= seq![p.0, p.1]);
}

/// Every adjacent pair of `t` that is `x` or `y` (two different pairs that
/// lift to the same pair) shows up as that lifted pair once `m` is spelled out.
pub proof fn lemma_unmerge_num_adj(t: Seq<TokenId>, p: (TokenId, TokenId), m: TokenId, x: (TokenId, TokenId), y: (TokenId, TokenId))
    requires
        lift_pair(x, p, m) == lift_pair(y, p, m),
    ensures
        num_adj(unmerge(t, p, m), lift_pair(x, p, m)) >= num_adj(t, x) + (if y != x { num_adj(t, y) } else { 0 }),
    decreases t.len(),
{
    let q = lift_pair(x, p, m);
    if t.len() == 0 {
        assert(num_adj(t, x) == 0);
        assert(num_adj(t, y) == 0);
    } else {
        let a = t[0];
        let s = t.drop_first();
        assert(t =~= seq![a] + s);
        lemma_num_adj_cons(a, s, x);
        lemma_num_adj_cons(a, s, y);
        lemma_unmerge_num_adj(s, p, m, x, y);
        let u = unmerge(s, p, m);
        if s.len() > 0 {
            assert(s.drop_first().len() < s.len());
            assert(u == expand_token(s[0], p, m) + unmerge(s.drop_first(), p, m));
            assert(u[0] == (if s[0] == m { p.0 } else { s[0] }));
        }
        if a != m {
            assert(unmerge(t, p, m) =~= seq![a] + u);
            lemma_num_adj_cons(a, u, q);
            if s.len() > 0 {
                assert(lift_pair((a, s[0]), p, m) == (a, u[0]));
            }
        } else {
            assert(unmerge(t, p, m) =~= seq![p.0] + (seq![p.1] + u));
            lemma_num_adj_cons(p.0, seq![p.1] + u, q);
            lemma_num_adj_cons(p.1, u, q);
            if s.len() > 0 {
                assert(lift_pair((a, s[0]), p, m) == (p.1, u[0]));
            }
        }
    }
}

/// The weighted form of [`lemma_unmerge_num_adj`].
pub proof fn lemma_unmerge_total(ws: Weighted, p: (TokenId, TokenId), m: TokenId, x: (TokenId, TokenId), y: (TokenId, TokenId))
    requires
        lift_pair(x, p, m) == lift_pair(y, p, m),
    ensures
        total_count(unmerge_ws(ws, p, m), lift_pair(x, p, m))
            >= total_count(ws, x) + (if y != x { total_count(ws, y) } else { 0 }),
    decreases ws.len(),
{
    if ws.len() > 0 {
        let q = lift_pair(x, p, m);
        let u = unmerge_ws(ws, p, m);
        assert(u.drop_last() =~= unmerge_ws(ws.drop_last(), p, m));
        lemma_unmerge_total(ws.drop_last(), p, m, x, y);
        let (t, f) = ws.last();
        assert(u.last() == (unmerge(t, p, m), f));
        lemma_unmerge_num_adj(t, p, m, x, y);
        let a = num_adj(unmerge(t, p, m), q) as int;
        let b = num_adj(t, x) as int;
        let c = if y != x { num_adj(t, y) as int } else { 0int };
        let fi = f as int;
        assert(fi * a >= fi * b + fi * c) by (nonlinear_arith)
            requires a >= b + c, fi >= 0, b >= 0, c >= 0;
    }
}

} // verus!
