//! Training-time indexes: weighted merge sequences, per-pair counts and
//! locations, and frequency buckets, kept in step with every splice.

use vstd::prelude::*;
use std::collections::{BTreeSet, HashSet};
use crate::bpe::BPE;
use crate::error::BPEError;
use crate::merge_sequence::{links_match, MergeSequence};
use crate::model::{self, pack_pair, unpack_pair, Weighted};
use crate::ordered::{min_item, sorted_items};
use crate::types::{MergeNodeSlot, MergeSequenceIndex, TokenId, BASE_VOCAB_SIZE};

verus! {

broadcast use vstd::std_specs::hash::group_hash_axioms, vstd::std_specs::btree::group_btree_axioms;

/// One unique training chunk plus the number of corpus occurrences it represents.
pub struct WeightedMergeSequence {
    /// The chunk's tokens as a sparse linked list.
    pub merge_sequence: MergeSequence,
    /// How many times the chunk occurs in the corpus.
    pub frequency: u32,
}

/// Weighted count of one pair and the locations of its left nodes.
pub struct TokenIdPairInfo {
    /// Weighted number of occurrences.
    pub count: u32,
    /// Packed `(merge_sequence_index, left_slot)` of every occurrence.
    pub occurrences: BTreeSet<u64>,
}

/// Count recorded for key `k` (zero when absent).
pub open spec fn info_count(info: Map<u64, TokenIdPairInfo>, k: u64) -> int {
    if info.contains_key(k) {
        info[k].count as int
    } else {
        0
    }
}

/// Locations recorded for key `k` (empty when absent).
pub open spec fn info_occ(info: Map<u64, TokenIdPairInfo>, k: u64) -> Set<u64> {
    if info.contains_key(k) {
        info[k].occurrences@
    } else {
        Set::empty()
    }
}

/// Buckets hold exactly the pairs at each count, `max` bounds every count, and
/// some pair attains `max` unless the table is empty.
pub open spec fn buckets_wf(info: Map<u64, TokenIdPairInfo>, buckets: Map<u32, HashSet<u64>>, max: u32) -> bool {
    &&& forall|k: u64| #[trigger] info.contains_key(k) ==> 0 < info[k].count <= max
    &&& forall|k: u64| #[trigger] info.contains_key(k) ==> buckets.contains_key(info[k].count) && buckets[info[k].count]@.contains(k)
    &&& forall|c: u32, k: u64| buckets.contains_key(c) && #[trigger] buckets[c]@.contains(k) ==> info.contains_key(k) && info[k].count == c
    &&& max > 0 ==> exists|k: u64| #[trigger] info.contains_key(k) && info[k].count == max
}

/// View of the training chunks as weighted token sequences.
pub open spec fn seqs_view(seqs: Seq<WeightedMergeSequence>) -> Weighted {
    Seq::new(seqs.len(), |i: int| (seqs[i].merge_sequence@, seqs[i].frequency))
}

/// Location `loc` (packed `(sequence, slot)`) holds a live occurrence of `p`.
pub open spec fn occurs_at(seqs: Seq<WeightedMergeSequence>, loc: u64, p: (TokenId, TokenId)) -> bool {
    let (i, s) = model::key_pair(loc);
    &&& (i as int) < seqs.len()
    &&& seqs[i as int].merge_sequence.pair_at(s as int) == Some(p)
}

/// All live occurrence locations of `p`.
pub open spec fn occ_set(seqs: Seq<WeightedMergeSequence>, p: (TokenId, TokenId)) -> Set<u64> {
    Set::new(|loc: u64| occurs_at(seqs, loc, p))
}

/// The effect of one `adjust` on the pair table: the count of `key` moves by
/// `delta` and `loc` joins (or leaves) its locations; a zero count drops the entry.
pub open spec fn adjusted(info0: Map<u64, TokenIdPairInfo>, info1: Map<u64, TokenIdPairInfo>, key: u64, loc: u64, delta: int) -> bool {
    &&& forall|k: u64| #[trigger] info_count(info1, k) == if k == key { info_count(info0, k) + delta } else { info_count(info0, k) }
    &&& forall|k: u64| #[trigger] info_occ(info1, k) == if k != key {
            info_occ(info0, k)
        } else if info_count(info0, k) + delta == 0 {
            Set::<u64>::empty()
        } else if delta > 0 {
            info_occ(info0, k).insert(loc)
        } else {
            info_occ(info0, k).remove(loc)
        }
}

/// Counts and locations agree with the chunks for every pair but `excluded`,
/// whose entry is absent.
pub open spec fn consistent(info: Map<u64, TokenIdPairInfo>, seqs: Seq<WeightedMergeSequence>, excluded: Option<u64>) -> bool {
    &&& forall|k: u64| Some(k) != excluded ==> #[trigger] info_count(info, k) == model::total_count(seqs_view(seqs), model::key_pair(k)) as int
    &&& forall|k: u64| Some(k) != excluded ==> #[trigger] info_occ(info, k) == occ_set(seqs, model::key_pair(k))
    &&& excluded matches Some(e) ==> !info.contains_key(e)
}

/// The training chunks are well formed, their indices fit in `u32`, and every
/// weight is positive.
pub open spec fn seqs_wf(seqs: Seq<WeightedMergeSequence>) -> bool {
    &&& seqs.len() <= u32::MAX + 1
    &&& forall|i: int| 0 <= i < seqs.len() ==> (#[trigger] seqs[i]).merge_sequence.wf() && seqs[i].frequency > 0
}

/// An occurrence contributes its chunk's weight to the total count.
pub proof fn lemma_occurs_count(seqs: Seq<WeightedMergeSequence>, loc: u64, x: (TokenId, TokenId))
    requires
        seqs_wf(seqs),
        occurs_at(seqs, loc, x),
    ensures
        model::total_count(seqs_view(seqs), x) >= seqs[model::key_pair(loc).0 as int].frequency,
{
    let (i, s) = model::key_pair(loc);
    let ms = seqs[i as int].merge_sequence;
    assert(ms.wf());
    ms.lemma_live_position(s as int);
    let j = ms.position(s);
    ms.lemma_pair_at_position(j);
    model::lemma_num_adj_pos(ms@, x, ms@.len() as int, j);
    let ws = seqs_view(seqs);
    assert(ws[i as int] == (ms@, seqs[i as int].frequency));
    model::lemma_total_count_ge(ws, i as int, x);
    let f = seqs[i as int].frequency as int;
    let n = model::num_adj(ms@, x) as int;
    assert(f * n >= f) by (nonlinear_arith)
        requires f >= 1, n >= 1;
}

/// Two different occurrences contribute both their weights.
pub proof fn lemma_two_occurrences(seqs: Seq<WeightedMergeSequence>, l1: u64, l2: u64, x: (TokenId, TokenId))
    requires
        seqs_wf(seqs),
        occurs_at(seqs, l1, x),
        occurs_at(seqs, l2, x),
        l1 != l2,
    ensures
        model::total_count(seqs_view(seqs), x) >= seqs[model::key_pair(l1).0 as int].frequency
            + seqs[model::key_pair(l2).0 as int].frequency,
{
    let (i1, s1) = model::key_pair(l1);
    let (i2, s2) = model::key_pair(l2);
    model::lemma_key_pair(l1);
    model::lemma_key_pair(l2);
    let ws = seqs_view(seqs);
    let ms1 = seqs[i1 as int].merge_sequence;
    let ms2 = seqs[i2 as int].merge_sequence;
    assert(ms1.wf() && ms2.wf());
    ms1.lemma_live_position(s1 as int);
    ms2.lemma_live_position(s2 as int);
    let j1 = ms1.position(s1);
    let j2 = ms2.position(s2);
    ms1.lemma_pair_at_position(j1);
    ms2.lemma_pair_at_position(j2);
    let f1 = seqs[i1 as int].frequency as int;
    let f2 = seqs[i2 as int].frequency as int;
    assert(ws[i1 as int] == (ms1@, seqs[i1 as int].frequency));
    assert(ws[i2 as int] == (ms2@, seqs[i2 as int].frequency));
    if i1 == i2 {
        assert(s1 != s2);
        assert(j1 != j2);
        if j1 < j2 {
            model::lemma_num_adj_pos2(ms1@, x, ms1@.len() as int, j1, j2);
        } else {
            model::lemma_num_adj_pos2(ms1@, x, ms1@.len() as int, j2, j1);
        }
        model::lemma_total_count_ge(ws, i1 as int, x);
        let n = model::num_adj(ms1@, x) as int;
        assert(f1 * n >= f1 + f1) by (nonlinear_arith)
            requires f1 >= 1, n >= 2;
    } else {
        model::lemma_num_adj_pos(ms1@, x, ms1@.len() as int, j1);
        model::lemma_num_adj_pos(ms2@, x, ms2@.len() as int, j2);
        let n1 = model::num_adj(ms1@, x) as int;
        let n2 = model::num_adj(ms2@, x) as int;
        if i1 < i2 {
            model::lemma_total_count_ge2(ws, i1 as int, i2 as int, x);
        } else {
            model::lemma_total_count_ge2(ws, i2 as int, i1 as int, x);
        }
        assert(f1 * n1 >= f1 && f2 * n2 >= f2) by (nonlinear_arith)
            requires f1 >= 1, n1 >= 1, f2 >= 1, n2 >= 1;
    }
}

/// Without occurrences the total count is zero, and conversely.
pub proof fn lemma_count_zero_no_occurrence(seqs: Seq<WeightedMergeSequence>, x: (TokenId, TokenId))
    requires
        seqs_wf(seqs),
        model::total_count(seqs_view(seqs), x) == 0,
    ensures
        occ_set(seqs, x) =~= Set::<u64>::empty(),
{
    assert forall|loc: u64| !occ_set(seqs, x).contains(loc) by {
        if occurs_at(seqs, loc, x) {
            lemma_occurs_count(seqs, loc, x);
        }
    }
}

/// Relation between the chunks before and after applying the merge of `best`
/// into `m` at location `(i, left)`: the chunk is spliced when the location
/// still holds `best`, and left alone otherwise.
pub open spec fn merge_step(seqs: Seq<WeightedMergeSequence>, seqs2: Seq<WeightedMergeSequence>, best: (TokenId, TokenId), m: TokenId, i: int, left: MergeNodeSlot) -> bool {
    let ms = seqs[i].merge_sequence;
    let ms2 = seqs2[i].merge_sequence;
    &&& seqs2.len() == seqs.len()
    &&& forall|j: int| 0 <= j < seqs.len() && j != i ==> seqs2[j] == seqs[j]
    &&& seqs2[i].frequency == seqs[i].frequency
    &&& ms2.slots@.len() == ms.slots@.len()
    &&& if ms.pair_at(left as int) == Some(best) {
            let k = ms.position(left);
            let right = ms.node(left as int).next.unwrap();
            &&& 0 <= k && k + 1 < ms.order@.len()
            &&& ms.order@[k] == left
            &&& ms.order@[k + 1] == right
            &&& ms2@ == ms@.update(k, m).remove(k + 1)
            &&& ms2.order@ == ms.order@.remove(k + 1)
            &&& forall|s: int| #[trigger] ms2.pair_at(s) == ms.spliced_pair_at(left, right, m, s)
        } else {
            seqs2[i] == seqs[i]
        }
}

/// Which locations hold `x` after one merge step: only the three touched
/// locations can change.
proof fn lemma_step_occurrences(
    seqs: Seq<WeightedMergeSequence>,
    seqs2: Seq<WeightedMergeSequence>,
    best: (TokenId, TokenId),
    m: TokenId,
    i: u32,
    left: MergeNodeSlot,
    x: (TokenId, TokenId),
)
    requires
        seqs_wf(seqs),
        (i as int) < seqs.len(),
        seqs[i as int].merge_sequence.pair_at(left as int) == Some(best),
        merge_step(seqs, seqs2, best, m, i as int, left),
    ensures
        ({
            let ms = seqs[i as int].merge_sequence;
            let k = ms.position(left);
            let o = ms.order@;
            let t = ms@;
            forall|loc: u64| #[trigger] occurs_at(seqs2, loc, x) == if k > 0 && loc == model::pair_key((i, o[k - 1])) {
                (t[k - 1], m) == x
            } else if loc == model::pair_key((i, left)) {
                k + 2 < o.len() && (m, t[k + 2]) == x
            } else if loc == model::pair_key((i, o[k + 1])) {
                false
            } else {
                occurs_at(seqs, loc, x)
            }
        }),
{
    let ms = seqs[i as int].merge_sequence;
    let ms2 = seqs2[i as int].merge_sequence;
    let k = ms.position(left);
    let o = ms.order@;
    let t = ms@;
    let right = o[k + 1];
    assert(ms.wf());
    assert(links_match(o, k, ms.node(o[k] as int)));
    assert(ms.live(o[k + 1] as int));
    assert(links_match(o, k + 1, ms.node(o[k + 1] as int)));
    if k > 0 {
        assert(ms.live(o[k - 1] as int));
        ms.lemma_pair_at_position(k - 1);
        model::lemma_pair_key((i, o[k - 1]));
    }
    if k + 2 < o.len() {
        ms.lemma_pair_at_position(k + 1);
        assert(ms.live(o[k + 2] as int));
        ms.lemma_pair_at_position(k + 2);
    }
    ms.lemma_pair_at_position(k);
    model::lemma_pair_key((i, left));
    model::lemma_pair_key((i, right));
    assert forall|loc: u64| #[trigger] occurs_at(seqs2, loc, x) == if k > 0 && loc == model::pair_key((i, o[k - 1])) {
        (t[k - 1], m) == x
    } else if loc == model::pair_key((i, left)) {
        k + 2 < o.len() && (m, t[k + 2]) == x
    } else if loc == model::pair_key((i, o[k + 1])) {
        false
    } else {
        occurs_at(seqs, loc, x)
    } by {
        model::lemma_key_pair(loc);
        let (i2, s2) = model::key_pair(loc);
        if i2 == i {
            assert(ms2.pair_at(s2 as int) == ms.spliced_pair_at(left, right, m, s2 as int));
            if k > 0 {
                model::lemma_key_order((i, o[k - 1]), (i2, s2));
            }
            model::lemma_key_order((i, left), (i2, s2));
            model::lemma_key_order((i, right), (i2, s2));
        } else {
            if k > 0 {
                model::lemma_key_order((i, o[k - 1]), (i2, s2));
            }
            model::lemma_key_order((i, left), (i2, s2));
            model::lemma_key_order((i, right), (i2, s2));
            if (i2 as int) < seqs.len() {
                assert(seqs2[i2 as int] == seqs[i2 as int]);
            }
        }
    }
}

/// The count adjustments that follow the splice at `(i, left)`: the pair to the
/// left and the pair to the right of the merged pair each move from the old
/// token to the merged one (the merged pair itself is excluded from the table).
pub open spec fn apply_chain(
    seqs: Seq<WeightedMergeSequence>,
    info0: Map<u64, TokenIdPairInfo>,
    info1: Map<u64, TokenIdPairInfo>,
    info2: Map<u64, TokenIdPairInfo>,
    info3: Map<u64, TokenIdPairInfo>,
    info4: Map<u64, TokenIdPairInfo>,
    best: (TokenId, TokenId),
    m: TokenId,
    i: u32,
    left: MergeNodeSlot,
) -> bool {
    let ms = seqs[i as int].merge_sequence;
    let k = ms.position(left);
    let o = ms.order@;
    let t = ms@;
    let f = seqs[i as int].frequency as int;
    let has_prev = k > 0;
    let has_next = k + 2 < o.len();
    &&& (has_prev && (t[k - 1], best.0) != best) ==> adjusted(info0, info1,
            model::pair_key((t[k - 1], best.0)), model::pair_key((i, o[k - 1])), -f)
    &&& !(has_prev && (t[k - 1], best.0) != best) ==> info1 == info0
    &&& has_prev ==> adjusted(info1, info2, model::pair_key((t[k - 1], m)), model::pair_key((i, o[k - 1])), f)
    &&& !has_prev ==> info2 == info1
    &&& (has_next && (best.1, t[k + 2]) != best) ==> adjusted(info2, info3,
            model::pair_key((best.1, t[k + 2])), model::pair_key((i, o[k + 1])), -f)
    &&& !(has_next && (best.1, t[k + 2]) != best) ==> info3 == info2
    &&& has_next ==> adjusted(info3, info4, model::pair_key((m, t[k + 2])), model::pair_key((i, left)), f)
    &&& !has_next ==> info4 == info3
}

/// `f * i` for an indicator `i`.
proof fn lemma_mul_indicator(f: int, i: int)
    requires
        i == 0 || i == 1,
    ensures
        f * i == (if i == 1 { f } else { 0 }),
{
}

/// The count part of [`lemma_apply_consistent`] for one key.
proof fn lemma_apply_count_at(
    seqs: Seq<WeightedMergeSequence>,
    seqs2: Seq<WeightedMergeSequence>,
    info0: Map<u64, TokenIdPairInfo>,
    info1: Map<u64, TokenIdPairInfo>,
    info2: Map<u64, TokenIdPairInfo>,
    info3: Map<u64, TokenIdPairInfo>,
    info4: Map<u64, TokenIdPairInfo>,
    best: (TokenId, TokenId),
    m: TokenId,
    i: u32,
    left: MergeNodeSlot,
    kk: u64,
)
    requires
        seqs_wf(seqs),
        consistent(info0, seqs, Some(model::pair_key(best))),
        (i as int) < seqs.len(),
        seqs[i as int].merge_sequence.pair_at(left as int) == Some(best),
        merge_step(seqs, seqs2, best, m, i as int, left),
        apply_chain(seqs, info0, info1, info2, info3, info4, best, m, i, left),
        m != best.0,
        m != best.1,
        kk != model::pair_key(best),
    ensures
        info_count(info4, kk) == model::total_count(seqs_view(seqs2), model::key_pair(kk)) as int,
{
    let ms = seqs[i as int].merge_sequence;
    let k = ms.position(left);
    let o = ms.order@;
    let t = ms@;
    let fu = seqs[i as int].frequency;
    let f = fu as int;
    let ws = seqs_view(seqs);
    let ws2 = seqs_view(seqs2);
    assert(ms.wf());
    ms.lemma_pair_at_position(k);
    assert(ws[i as int] == (t, fu));
    assert(ws2 =~= ws.update(i as int, (t.update(k, m).remove(k + 1), fu)));
    model::lemma_splice_counts(ws, i as int, k, m);
    let x = model::key_pair(kk);
    assert(model::total_count(ws.update(i as int, (ws[i as int].0.update(k, m).remove(k + 1), ws[i as int].1)), x) as int
        == model::total_count(ws, x) as int + ws[i as int].1 as int * model::splice_delta(ws[i as int].0, k, m, x));
    model::lemma_key_pair(kk);
    let pt = if k > 0 { t[k - 1] } else { 0 };
    let nt = if k + 2 < t.len() { t[k + 2] } else { 0 };
    model::lemma_key_order((pt, best.0), x);
    model::lemma_key_order((pt, m), x);
    model::lemma_key_order((best.1, nt), x);
    model::lemma_key_order((m, nt), x);
    model::lemma_key_order(best, x);
    let i1: int = if k > 0 && (t[k - 1], m) == x { 1 } else { 0 };
    let i2: int = if k + 2 < t.len() && (m, t[k + 2]) == x { 1 } else { 0 };
    let i3: int = if k > 0 && (t[k - 1], t[k]) == x { 1 } else { 0 };
    let i4: int = if (t[k], t[k + 1]) == x { 1 } else { 0 };
    let i5: int = if k + 2 < t.len() && (t[k + 1], t[k + 2]) == x { 1 } else { 0 };
    assert(model::splice_delta(t, k, m, x) == i1 + i2 - i3 - i4 - i5);
    assert(f * (i1 + i2 - i3 - i4 - i5) == f * i1 + f * i2 - f * i3 - f * i4 - f * i5) by (nonlinear_arith);
    assert(i4 == 0);
    lemma_mul_indicator(f, i1);
    lemma_mul_indicator(f, i2);
    lemma_mul_indicator(f, i3);
    lemma_mul_indicator(f, i4);
    lemma_mul_indicator(f, i5);
    assert(info_count(info0, kk) == model::total_count(ws, x) as int);
}

/// The location part of [`lemma_apply_consistent`] for one key.
proof fn lemma_apply_occ_at(
    seqs: Seq<WeightedMergeSequence>,
    seqs2: Seq<WeightedMergeSequence>,
    info0: Map<u64, TokenIdPairInfo>,
    info1: Map<u64, TokenIdPairInfo>,
    info2: Map<u64, TokenIdPairInfo>,
    info3: Map<u64, TokenIdPairInfo>,
    info4: Map<u64, TokenIdPairInfo>,
    best: (TokenId, TokenId),
    m: TokenId,
    i: u32,
    left: MergeNodeSlot,
    kk: u64,
)
    requires
        seqs_wf(seqs),
        seqs_wf(seqs2),
        consistent(info0, seqs, Some(model::pair_key(best))),
        (i as int) < seqs.len(),
        seqs[i as int].merge_sequence.pair_at(left as int) == Some(best),
        merge_step(seqs, seqs2, best, m, i as int, left),
        apply_chain(seqs, info0, info1, info2, info3, info4, best, m, i, left),
        m != best.0,
        m != best.1,
        kk != model::pair_key(best),
        info_count(info4, kk) == model::total_count(seqs_view(seqs2), model::key_pair(kk)) as int,
    ensures
        info_occ(info4, kk) == occ_set(seqs2, model::key_pair(kk)),
{
    let ms = seqs[i as int].merge_sequence;
    let k = ms.position(left);
    let o = ms.order@;
    let t = ms@;
    let right = o[k + 1];
    let has_prev = k > 0;
    let has_next = k + 2 < o.len();
    assert(ms.wf());
    ms.lemma_pair_at_position(k);
    assert(t[k] == best.0 && t[k + 1] == best.1);
    assert(links_match(o, k, ms.node(o[k] as int)));
    let ll = model::pair_key((i, left));
    let lr = model::pair_key((i, right));
    model::lemma_pair_key((i, left));
    model::lemma_pair_key((i, right));
    assert(o[k] < o[k + 1]);
    model::lemma_key_order((i, left), (i, right));
    let prev = if has_prev { o[k - 1] } else { 0 };
    let lp = model::pair_key((i, prev));
    model::lemma_pair_key((i, prev));
    if has_prev {
        assert(o[k - 1] < o[k]);
        ms.lemma_pair_at_position(k - 1);
        model::lemma_key_order((i, prev), (i, left));
        model::lemma_key_order((i, prev), (i, right));
    }
    let nt = if has_next { t[k + 2] } else { 0 };
    if has_next {
        ms.lemma_pair_at_position(k + 1);
    }
    let pt = if has_prev { t[k - 1] } else { 0 };
    let c1 = has_prev && (pt, best.0) != best;
    let c3 = has_next && (best.1, nt) != best;
    let x = model::key_pair(kk);
    model::lemma_key_pair(kk);
    model::lemma_key_order((pt, best.0), x);
    model::lemma_key_order((pt, m), x);
    model::lemma_key_order((best.1, nt), x);
    model::lemma_key_order((m, nt), x);
    model::lemma_key_order(best, x);
    let s0 = occ_set(seqs, x);
    assert(info_occ(info0, kk) == s0);
    assert(s0.contains(ll) == false);
    assert(has_prev ==> (s0.contains(lp) == ((pt, best.0) == x)));
    assert(has_next ==> (s0.contains(lr) == ((best.1, nt) == x)));
    assert(!has_next ==> !s0.contains(lr));
    lemma_step_occurrences(seqs, seqs2, best, m, i, left, x);
    if info_count(info4, kk) == 0 {
        lemma_count_zero_no_occurrence(seqs2, x);
        assert(info_occ(info4, kk) =~= Set::<u64>::empty());
    } else {
        let a = c1 && (pt, best.0) == x;
        let d = has_next && (m, nt) == x;
        if a && d && info_count(info1, kk) == 0 {
            // the first decrement emptied the entry: `lp` was its only location
            assert forall|l2: u64| s0.contains(l2) implies l2 == lp by {
                if l2 != lp {
                    lemma_two_occurrences(seqs, lp, l2, x);
                }
            }
            assert(s0.remove(lp) =~= Set::<u64>::empty());
        }
        if c1 && c3 && (pt, best.0) == x && (best.1, nt) == x {
            lemma_two_occurrences(seqs, lp, lr, x);
        }
        if c3 && (best.1, nt) == x {
            lemma_occurs_count(seqs, lr, x);
        }
        if c1 && (pt, best.0) == x {
            lemma_occurs_count(seqs, lp, x);
        }
        assert(info_occ(info4, kk) =~= occ_set(seqs2, x));
    }
}

/// Before the last adjustment, the count of the new right-hand pair is one
/// weight short of its count after the splice.
proof fn lemma_apply_count_before_last(
    seqs: Seq<WeightedMergeSequence>,
    seqs2: Seq<WeightedMergeSequence>,
    info0: Map<u64, TokenIdPairInfo>,
    info1: Map<u64, TokenIdPairInfo>,
    info2: Map<u64, TokenIdPairInfo>,
    info3: Map<u64, TokenIdPairInfo>,
    best: (TokenId, TokenId),
    m: TokenId,
    i: u32,
    left: MergeNodeSlot,
)
    requires
        seqs_wf(seqs),
        consistent(info0, seqs, Some(model::pair_key(best))),
        (i as int) < seqs.len(),
        seqs[i as int].merge_sequence.pair_at(left as int) == Some(best),
        merge_step(seqs, seqs2, best, m, i as int, left),
        seqs[i as int].merge_sequence.position(left) + 2 < seqs[i as int].merge_sequence.order@.len(),
        ({
            let ms = seqs[i as int].merge_sequence;
            let k = ms.position(left);
            let o = ms.order@;
            let t = ms@;
            let f = seqs[i as int].frequency as int;
            let has_prev = k > 0;
            &&& (has_prev && (t[k - 1], best.0) != best) ==> adjusted(info0, info1,
                    model::pair_key((t[k - 1], best.0)), model::pair_key((i, o[k - 1])), -f)
            &&& !(has_prev && (t[k - 1], best.0) != best) ==> info1 == info0
            &&& has_prev ==> adjusted(info1, info2, model::pair_key((t[k - 1], m)), model::pair_key((i, o[k - 1])), f)
            &&& !has_prev ==> info2 == info1
            &&& ((best.1, t[k + 2]) != best) ==> adjusted(info2, info3,
                    model::pair_key((best.1, t[k + 2])), model::pair_key((i, o[k + 1])), -f)
            &&& !((best.1, t[k + 2]) != best) ==> info3 == info2
        }),
        m != best.0,
        m != best.1,
    ensures
        ({
            let ms = seqs[i as int].merge_sequence;
            let k = ms.position(left);
            let x = (m, ms@[k + 2]);
            info_count(info3, model::pair_key(x)) + seqs[i as int].frequency
                == model::total_count(seqs_view(seqs2), x) as int
        }),
{
    let ms = seqs[i as int].merge_sequence;
    let k = ms.position(left);
    let t = ms@;
    let fu = seqs[i as int].frequency;
    let f = fu as int;
    let ws = seqs_view(seqs);
    let ws2 = seqs_view(seqs2);
    assert(ms.wf());
    ms.lemma_pair_at_position(k);
    assert(ws[i as int] == (t, fu));
    assert(ws2 =~= ws.update(i as int, (t.update(k, m).remove(k + 1), fu)));
    model::lemma_splice_counts(ws, i as int, k, m);
    let x = (m, t[k + 2]);
    let kk = model::pair_key(x);
    assert(model::total_count(ws.update(i as int, (ws[i as int].0.update(k, m).remove(k + 1), ws[i as int].1)), x) as int
        == model::total_count(ws, x) as int + ws[i as int].1 as int * model::splice_delta(ws[i as int].0, k, m, x));
    model::lemma_pair_key(x);
    let pt = if k > 0 { t[k - 1] } else { 0 };
    let nt = t[k + 2];
    model::lemma_key_order((pt, best.0), x);
    model::lemma_key_order((pt, m), x);
    model::lemma_key_order((best.1, nt), x);
    model::lemma_key_order(best, x);
    let i1: int = if k > 0 && (t[k - 1], m) == x { 1 } else { 0 };
    let i2: int = 1;
    let i3: int = if k > 0 && (t[k - 1], t[k]) == x { 1 } else { 0 };
    let i4: int = if (t[k], t[k + 1]) == x { 1 } else { 0 };
    let i5: int = if (t[k + 1], t[k + 2]) == x { 1 } else { 0 };
    assert(model::splice_delta(t, k, m, x) == i1 + i2 - i3 - i4 - i5);
    assert(f * (i1 + i2 - i3 - i4 - i5) == f * i1 + f * i2 - f * i3 - f * i4 - f * i5) by (nonlinear_arith);
    assert(i4 == 0);
    assert(i5 == 0);
    lemma_mul_indicator(f, i1);
    lemma_mul_indicator(f, i2);
    lemma_mul_indicator(f, i3);
    lemma_mul_indicator(f, i4);
    lemma_mul_indicator(f, i5);
    assert(info_count(info0, kk) == model::total_count(ws, x) as int);
}

/// Consistency survives one splice followed by the (up to four) count
/// adjustments that the trainer performs around it.
proof fn lemma_apply_consistent(
    seqs: Seq<WeightedMergeSequence>,
    seqs2: Seq<WeightedMergeSequence>,
    info0: Map<u64, TokenIdPairInfo>,
    info1: Map<u64, TokenIdPairInfo>,
    info2: Map<u64, TokenIdPairInfo>,
    info3: Map<u64, TokenIdPairInfo>,
    info4: Map<u64, TokenIdPairInfo>,
    best: (TokenId, TokenId),
    m: TokenId,
    i: u32,
    left: MergeNodeSlot,
)
    requires
        seqs_wf(seqs),
        seqs_wf(seqs2),
        consistent(info0, seqs, Some(model::pair_key(best))),
        (i as int) < seqs.len(),
        seqs[i as int].merge_sequence.pair_at(left as int) == Some(best),
        merge_step(seqs, seqs2, best, m, i as int, left),
        apply_chain(seqs, info0, info1, info2, info3, info4, best, m, i, left),
        m != best.0,
        m != best.1,
        forall|kk: u64| #[trigger] info4.contains_key(kk) ==> info4[kk].count > 0,
    ensures
        consistent(info4, seqs2, Some(model::pair_key(best))),
{
    let bk = model::pair_key(best);
    let ms = seqs[i as int].merge_sequence;
    let k = ms.position(left);
    let t = ms@;
    assert(ms.wf());
    ms.lemma_pair_at_position(k);
    let pt = if k > 0 { t[k - 1] } else { 0 };
    let nt = if k + 2 < t.len() { t[k + 2] } else { 0 };
    model::lemma_key_order((pt, best.0), best);
    model::lemma_key_order((pt, m), best);
    model::lemma_key_order((best.1, nt), best);
    model::lemma_key_order((m, nt), best);
    assert(info_count(info4, bk) == info_count(info0, bk));
    assert(!info4.contains_key(bk));
    assert forall|kk: u64| Some(kk) != Some(bk) implies
        #[trigger] info_count(info4, kk) == model::total_count(seqs_view(seqs2), model::key_pair(kk)) as int by {
        lemma_apply_count_at(seqs, seqs2, info0, info1, info2, info3, info4, best, m, i, left, kk);
    }
    assert forall|kk: u64| Some(kk) != Some(bk) implies
        #[trigger] info_occ(info4, kk) == occ_set(seqs2, model::key_pair(kk)) by {
        lemma_apply_count_at(seqs, seqs2, info0, info1, info2, info3, info4, best, m, i, left, kk);
        lemma_apply_occ_at(seqs, seqs2, info0, info1, info2, info3, info4, best, m, i, left, kk);
    }
}

/// The cursor of a merge round after `n` of the sorted locations `occs` were visited.
pub open spec fn cursor(occs: Seq<u64>, n: int) -> int {
    if n < occs.len() {
        occs[n] as int
    } else {
        0x1_0000_0000_0000_0000
    }
}

/// Progress of a merge round on chunk `i` (tokens `t0` at the start of the
/// round): the first `q` tokens are final and the rest still merges greedily,
/// every location before `q` lies below the cursor, and every remaining
/// occurrence of `best` is still to be visited.
pub open spec fn round_progress(
    t0: Seq<TokenId>,
    ms: MergeSequence,
    i: u32,
    q: int,
    best: (TokenId, TokenId),
    m: TokenId,
    occs: Seq<u64>,
    n: int,
) -> bool {
    let c = ms@;
    let o = ms.order@;
    &&& 0 <= q <= c.len()
    &&& model::merge_all(t0, best, m) == c.subrange(0, q) + model::merge_all(c.subrange(q, c.len() as int), best, m)
    &&& forall|j: int| 0 <= j < q ==> (model::pair_key((i, #[trigger] o[j])) as int) < cursor(occs, n)
    &&& forall|j: int| q <= j && j + 1 < c.len() && #[trigger] model::pair_of(c, j) == best ==>
            occs.subrange(n, occs.len() as int).contains(model::pair_key((i, o[j])))
}

/// Progress of a merge round on every chunk.
pub open spec fn round_inv(
    seqs: Seq<WeightedMergeSequence>,
    t0: Weighted,
    qs: Seq<int>,
    best: (TokenId, TokenId),
    m: TokenId,
    occs: Seq<u64>,
    n: int,
) -> bool {
    &&& seqs.len() == t0.len()
    &&& qs.len() == t0.len()
    &&& forall|i: int| 0 <= i < seqs.len() ==> (#[trigger] seqs[i]).frequency == t0[i].1
    &&& forall|i: int| 0 <= i < seqs.len() ==>
            round_progress(t0[i].0, #[trigger] seqs[i].merge_sequence, i as u32, qs[i], best, m, occs, n)
}

/// Occurrences of `p` in the chunks before `a`, and in chunk `a` at positions before `j`.
pub open spec fn occ_prefix(seqs: Seq<WeightedMergeSequence>, a: int, j: int, p: (TokenId, TokenId)) -> Set<u64> {
    Set::new(|loc: u64| occurs_at(seqs, loc, p) && {
        let (i, s) = model::key_pair(loc);
        (i as int) < a || (i as int == a && seqs[a].merge_sequence.position(s) < j)
    })
}

/// Locations strictly increase.
pub open spec fn sorted_locations(occs: Seq<u64>) -> bool {
    forall|a: int, b: int| 0 <= a < b < occs.len() ==> occs[a] < occs[b]
}

/// At the start of a round nothing is merged and every occurrence is pending.
proof fn lemma_round_start(seqs: Seq<WeightedMergeSequence>, best: (TokenId, TokenId), m: TokenId, occs: Seq<u64>)
    requires
        seqs_wf(seqs),
        occs.to_set() == occ_set(seqs, best),
    ensures
        round_inv(seqs, seqs_view(seqs), Seq::new(seqs.len(), |i: int| 0int), best, m, occs, 0),
{
    let t0 = seqs_view(seqs);
    let qs = Seq::new(seqs.len(), |i: int| 0int);
    assert(occs.subrange(0, occs.len() as int) =~= occs);
    assert forall|i: int| 0 <= i < seqs.len() implies
        round_progress(t0[i].0, #[trigger] seqs[i].merge_sequence, i as u32, qs[i], best, m, occs, 0) by {
        let ms = seqs[i].merge_sequence;
        let c = ms@;
        let o = ms.order@;
        assert(ms.wf());
        assert(c.subrange(0, 0) + model::merge_all(c.subrange(0, c.len() as int), best, m)
            =~= model::merge_all(c, best, m)) by {
            assert(c.subrange(0, c.len() as int) =~= c);
        }
        assert forall|j: int| 0 <= j && j + 1 < c.len() && #[trigger] model::pair_of(c, j) == best implies
            occs.subrange(0, occs.len() as int).contains(model::pair_key((i as u32, o[j]))) by {
            ms.lemma_pair_at_position(j);
            model::lemma_pair_key((i as u32, o[j]));
            assert(occurs_at(seqs, model::pair_key((i as u32, o[j])), best));
            assert(occ_set(seqs, best).contains(model::pair_key((i as u32, o[j]))));
            assert(occs.to_set().contains(model::pair_key((i as u32, o[j]))));
        }
    }
}

/// The pending locations after `occs[n]` are the pending ones other than `occs[n]`,
/// and none lies below it.
proof fn lemma_pending(occs: Seq<u64>, n: int)
    requires
        sorted_locations(occs),
        0 <= n < occs.len(),
    ensures
        cursor(occs, n) < cursor(occs, n + 1),
        forall|x: u64| #[trigger] occs.subrange(n, occs.len() as int).contains(x) && x != occs[n] ==>
            occs.subrange(n + 1, occs.len() as int).contains(x),
        forall|x: u64| #[trigger] occs.subrange(n, occs.len() as int).contains(x) ==> occs[n] <= x,
{
    assert forall|x: u64| #[trigger] occs.subrange(n, occs.len() as int).contains(x) && x != occs[n] implies
        occs.subrange(n + 1, occs.len() as int).contains(x) by {
        let a = choose|a: int| 0 <= a < occs.len() - n && occs.subrange(n, occs.len() as int)[a] == x;
        assert(a != 0);
        assert(occs.subrange(n + 1, occs.len() as int)[a - 1] == x);
    }
    assert forall|x: u64| #[trigger] occs.subrange(n, occs.len() as int).contains(x) implies occs[n] <= x by {
        let a = choose|a: int| 0 <= a < occs.len() - n && occs.subrange(n, occs.len() as int)[a] == x;
        assert(occs[n + a] == x);
    }
}

/// A chunk whose pending occurrences all differ from `occs[n]` keeps its
/// progress when the cursor moves past `occs[n]`.
proof fn lemma_progress_advance(
    t0: Seq<TokenId>,
    ms: MergeSequence,
    i: u32,
    q: int,
    best: (TokenId, TokenId),
    m: TokenId,
    occs: Seq<u64>,
    n: int,
)
    requires
        round_progress(t0, ms, i, q, best, m, occs, n),
        sorted_locations(occs),
        0 <= n < occs.len(),
        forall|j: int| q <= j && j + 1 < ms@.len() && #[trigger] model::pair_of(ms@, j) == best ==>
            model::pair_key((i, ms.order@[j])) != occs[n],
    ensures
        round_progress(t0, ms, i, q, best, m, occs, n + 1),
{
    lemma_pending(occs, n);
    assert forall|j: int| q <= j && j + 1 < ms@.len() && #[trigger] model::pair_of(ms@, j) == best implies
        occs.subrange(n + 1, occs.len() as int).contains(model::pair_key((i, ms.order@[j]))) by {
        assert(occs.subrange(n, occs.len() as int).contains(model::pair_key((i, ms.order@[j]))));
    }
}

/// Merging the occurrence at `occs[n]`, which still holds `best`, moves the
/// chunk's progress just past it.
proof fn lemma_progress_merge(
    t0: Seq<TokenId>,
    ms: MergeSequence,
    ms2: MergeSequence,
    i: u32,
    q: int,
    best: (TokenId, TokenId),
    m: TokenId,
    occs: Seq<u64>,
    n: int,
    s: MergeNodeSlot,
)
    requires
        ms.wf(),
        round_progress(t0, ms, i, q, best, m, occs, n),
        sorted_locations(occs),
        0 <= n < occs.len(),
        occs[n] == model::pair_key((i, s)),
        ms.pair_at(s as int) == Some(best),
        ({
            let k = ms.position(s);
            &&& 0 <= k && k + 1 < ms.order@.len()
            &&& ms.order@[k] == s
            &&& ms2@ == ms@.update(k, m).remove(k + 1)
            &&& ms2.order@ == ms.order@.remove(k + 1)
        }),
    ensures
        round_progress(t0, ms2, i, ms.position(s) + 1, best, m, occs, n + 1),
{
    let k = ms.position(s);
    let c = ms@;
    let o = ms.order@;
    let c2 = ms2@;
    let o2 = ms2.order@;
    lemma_pending(occs, n);
    model::lemma_pair_key((i, s));
    ms.lemma_pair_at_position(k);
    assert(k >= q) by {
        if k < q {
            assert((model::pair_key((i, o[k])) as int) < cursor(occs, n));
        }
    }
    assert forall|j: int| q <= j < k && j + 1 < c.len() implies model::pair_of(c, j) != best by {
        if model::pair_of(c, j) == best {
            assert(occs.subrange(n, occs.len() as int).contains(model::pair_key((i, o[j]))));
            assert(o[j] < o[k]);
            model::lemma_key_order((i, o[j]), (i, s));
        }
    }
    model::lemma_merge_all_skip(c, best, m, q, k);
    model::lemma_merge_all_step(c, best, m, k);
    assert(c.subrange(0, q) + c.subrange(q, k) =~= c.subrange(0, k));
    assert(model::merge_all(t0, best, m) == c2.subrange(0, k + 1)
        + model::merge_all(c2.subrange(k + 1, c2.len() as int), best, m));
    assert forall|j: int| 0 <= j < k + 1 implies
        (model::pair_key((i, #[trigger] o2[j])) as int) < cursor(occs, n + 1) by {
        assert(o2[j] == o[j]);
        if j < k {
            assert(o[j] < o[k]);
        }
        model::lemma_key_order((i, o[j]), (i, s));
    }
    assert forall|j: int| k + 1 <= j && j + 1 < c2.len() && #[trigger] model::pair_of(c2, j) == best implies
        occs.subrange(n + 1, occs.len() as int).contains(model::pair_key((i, o2[j]))) by {
        assert(c2[j] == c[j + 1] && c2[j + 1] == c[j + 2]);
        assert(model::pair_of(c, j + 1) == best);
        assert(o2[j] == o[j + 1]);
        assert(o[k] < o[j + 1]);
        model::lemma_key_order((i, o[j + 1]), (i, s));
        assert(occs.subrange(n, occs.len() as int).contains(model::pair_key((i, o[j + 1]))));
    }
}

/// Visiting the location `occs[n]` keeps the round invariant, with the cursor
/// moved past it.
proof fn lemma_round_step(
    pre: Seq<WeightedMergeSequence>,
    post: Seq<WeightedMergeSequence>,
    t0: Weighted,
    qs: Seq<int>,
    best: (TokenId, TokenId),
    m: TokenId,
    occs: Seq<u64>,
    n: int,
) -> (qs2: Seq<int>)
    requires
        seqs_wf(pre),
        round_inv(pre, t0, qs, best, m, occs, n),
        sorted_locations(occs),
        0 <= n < occs.len(),
        (model::key_pair(occs[n]).0 as int) < pre.len(),
        merge_step(pre, post, best, m, model::key_pair(occs[n]).0 as int, model::key_pair(occs[n]).1),
    ensures
        round_inv(post, t0, qs2, best, m, occs, n + 1),
{
    let (iu, s) = model::key_pair(occs[n]);
    let i = iu as int;
    model::lemma_key_pair(occs[n]);
    let ms = pre[i].merge_sequence;
    let merged = ms.pair_at(s as int) == Some(best);
    let qs2 = if merged { qs.update(i, ms.position(s) + 1) } else { qs };
    assert forall|i2: int| 0 <= i2 < post.len() implies
        round_progress(t0[i2].0, #[trigger] post[i2].merge_sequence, i2 as u32, qs2[i2], best, m, occs, n + 1) by {
        let msx = pre[i2].merge_sequence;
        assert(msx.wf());
        assert(round_progress(t0[i2].0, msx, i2 as u32, qs[i2], best, m, occs, n));
        if i2 == i && merged {
            lemma_progress_merge(t0[i].0, ms, post[i].merge_sequence, iu, qs[i], best, m, occs, n, s);
        } else {
            assert(post[i2] == pre[i2]);
            assert forall|j: int| qs[i2] <= j && j + 1 < msx@.len() && #[trigger] model::pair_of(msx@, j) == best implies
                model::pair_key((i2 as u32, msx.order@[j])) != occs[n] by {
                model::lemma_key_order((i2 as u32, msx.order@[j]), (iu, s));
                msx.lemma_pair_at_position(j);
            }
            lemma_progress_advance(t0[i2].0, msx, i2 as u32, qs[i2], best, m, occs, n);
        }
    }
    assert forall|i2: int| 0 <= i2 < post.len() implies (#[trigger] post[i2]).frequency == t0[i2].1 by {
        if i2 != i {
            assert(post[i2] == pre[i2]);
        }
    }
    qs2
}

/// When every location has been visited, each chunk is its greedy merge.
proof fn lemma_round_done(
    seqs: Seq<WeightedMergeSequence>,
    t0: Weighted,
    qs: Seq<int>,
    best: (TokenId, TokenId),
    m: TokenId,
    occs: Seq<u64>,
)
    requires
        round_inv(seqs, t0, qs, best, m, occs, occs.len() as int),
    ensures
        seqs_view(seqs) == model::merge_ws(t0, best, m),
{
    assert forall|i: int| 0 <= i < seqs.len() implies #[trigger] seqs_view(seqs)[i] == model::merge_ws(t0, best, m)[i] by {
        let ms = seqs[i].merge_sequence;
        let c = ms@;
        let q = qs[i];
        assert(round_progress(t0[i].0, ms, i as u32, q, best, m, occs, occs.len() as int));
        assert forall|j: int| q <= j < c.len() && j + 1 < c.len() implies model::pair_of(c, j) != best by {
            if model::pair_of(c, j) == best {
                assert(occs.subrange(occs.len() as int, occs.len() as int).contains(model::pair_key((i as u32, ms.order@[j]))));
            }
        }
        model::lemma_merge_all_skip(c, best, m, q, c.len() as int);
        assert(c.subrange(c.len() as int, c.len() as int) =~= Seq::<TokenId>::empty());
        assert(c.subrange(0, q) + (c.subrange(q, c.len() as int) + Seq::<TokenId>::empty()) =~= c);
    }
    assert(seqs_view(seqs) =~= model::merge_ws(t0, best, m));
}

impl BPE {
    /// The bucket index is consistent with the pair table.
    pub(crate) open spec fn index_wf(self) -> bool {
        buckets_wf(self.token_id_pair_info@, self.count_to_token_id_pairs@, self.max_token_id_pair_count)
    }

    /// The fields that the index operations leave alone are unchanged.
    pub(crate) open spec fn same_model(self, other: Self) -> bool {
        &&& self.split_pattern_source == other.split_pattern_source
        &&& self.special_split_pattern_source == other.special_split_pattern_source
        &&& self.special_tokens == other.special_tokens
        &&& self.vocab == other.vocab
        &&& self.merge_map == other.merge_map
        &&& self.merge_sequences == other.merge_sequences
    }

    /// Whether the bucket for `count` is absent or empty.
    fn bucket_is_empty(&self, count: u32) -> (r: bool)
        ensures
            r == (!self.count_to_token_id_pairs@.contains_key(count) || self.count_to_token_id_pairs@[count]@.is_empty()),
    {
        match self.count_to_token_id_pairs.get(&count) {
            Some(bucket) => bucket.is_empty(),
            None => true,
        }
    }

    /// Lowers `max_token_id_pair_count` to the highest non-empty bucket.
    fn shrink_max(&mut self, skip: u64)
        requires
            forall|k: u64| #[trigger] old(self).token_id_pair_info@.contains_key(k) && k != skip
                ==> 0 < old(self).token_id_pair_info@[k].count <= old(self).max_token_id_pair_count,
            forall|k: u64| #[trigger] old(self).token_id_pair_info@.contains_key(k) && k != skip
                ==> old(self).count_to_token_id_pairs@.contains_key(old(self).token_id_pair_info@[k].count)
                    && old(self).count_to_token_id_pairs@[old(self).token_id_pair_info@[k].count]@.contains(k),
            forall|c: u32, k: u64| old(self).count_to_token_id_pairs@.contains_key(c)
                && #[trigger] old(self).count_to_token_id_pairs@[c]@.contains(k)
                ==> k != skip && old(self).token_id_pair_info@.contains_key(k) && old(self).token_id_pair_info@[k].count == c,
        ensures
            final(self).same_model(*old(self)),
            final(self).token_id_pair_info == old(self).token_id_pair_info,
            final(self).count_to_token_id_pairs == old(self).count_to_token_id_pairs,
            final(self).max_token_id_pair_count <= old(self).max_token_id_pair_count,
            forall|k: u64| #[trigger] final(self).token_id_pair_info@.contains_key(k) && k != skip
                ==> final(self).token_id_pair_info@[k].count <= final(self).max_token_id_pair_count,
            final(self).max_token_id_pair_count > 0 ==> exists|k: u64| #[trigger] final(self).token_id_pair_info@.contains_key(k)
                && k != skip && final(self).token_id_pair_info@[k].count == final(self).max_token_id_pair_count,
    {
        while self.max_token_id_pair_count > 0 && self.bucket_is_empty(self.max_token_id_pair_count)
            invariant
                self.same_model(*old(self)),
                self.token_id_pair_info == old(self).token_id_pair_info,
                self.count_to_token_id_pairs == old(self).count_to_token_id_pairs,
                self.max_token_id_pair_count <= old(self).max_token_id_pair_count,
                forall|k: u64| #[trigger] self.token_id_pair_info@.contains_key(k) && k != skip
                    ==> self.token_id_pair_info@[k].count <= self.max_token_id_pair_count,
                forall|k: u64| #[trigger] old(self).token_id_pair_info@.contains_key(k) && k != skip
                    ==> old(self).count_to_token_id_pairs@.contains_key(old(self).token_id_pair_info@[k].count)
                        && old(self).count_to_token_id_pairs@[old(self).token_id_pair_info@[k].count]@.contains(k),
                forall|c: u32, k: u64| old(self).count_to_token_id_pairs@.contains_key(c)
                    && #[trigger] old(self).count_to_token_id_pairs@[c]@.contains(k)
                    ==> k != skip && old(self).token_id_pair_info@.contains_key(k) && old(self).token_id_pair_info@[k].count == c,
            decreases self.max_token_id_pair_count,
        {
            proof {
                let m = self.max_token_id_pair_count;
                assert forall|k: u64| #[trigger] self.token_id_pair_info@.contains_key(k) && k != skip
                    implies self.token_id_pair_info@[k].count <= m - 1 by {
                    let c = self.token_id_pair_info@[k].count;
                    if c == m {
                        assert(self.count_to_token_id_pairs@[c]@.contains(k));
                    }
                }
            }
            self.max_token_id_pair_count = self.max_token_id_pair_count - 1;
        }
        proof {
            let m = self.max_token_id_pair_count;
            if m > 0 {
                let b = self.count_to_token_id_pairs@[m]@;
                assert(!b.is_empty());
                assert(exists|k: u64| b.contains(k)) by {
                    if !(exists|k: u64| b.contains(k)) {
                        assert(b =~= Set::<u64>::empty());
                    }
                }
                let k = choose|k: u64| b.contains(k);
                assert(self.token_id_pair_info@.contains_key(k) && k != skip);
            }
        }
    }

    /// Adds `delta` to the weighted count of `token_id_pair` and records or forgets
    /// the location `(merge_sequence_index, pos)`, keeping the buckets in step.
    fn adjust(&mut self, token_id_pair: u64, merge_sequence_index: MergeSequenceIndex, pos: MergeNodeSlot, delta: i64)
        requires
            old(self).index_wf(),
            0 <= info_count(old(self).token_id_pair_info@, token_id_pair) + delta <= u32::MAX,
        ensures
            final(self).index_wf(),
            final(self).same_model(*old(self)),
            adjusted(old(self).token_id_pair_info@, final(self).token_id_pair_info@, token_id_pair,
                model::pair_key((merge_sequence_index, pos)), delta as int),
    {
        let ghost old_info = self.token_id_pair_info@;
        let ghost old_buckets = self.count_to_token_id_pairs@;
        let loc = pack_pair(merge_sequence_index, pos);
        let mut info = match self.token_id_pair_info.remove(&token_id_pair) {
            Some(existing) => existing,
            None => TokenIdPairInfo { count: 0, occurrences: BTreeSet::new() },
        };
        let old_count = info.count;
        let new_count_i64: i64 = old_count as i64 + delta;
        let new_count: u32 = new_count_i64 as u32;
        info.count = new_count;
        if delta > 0 {
            info.occurrences.insert(loc);
        } else {
            info.occurrences.remove(&loc);
        }
        let ghost new_occ = info.occurrences@;
        self.token_id_pair_info.insert(token_id_pair, info);

        let ghost old_max = self.max_token_id_pair_count;
        let ghost mut shrunk = false;
        if old_count > 0 {
            let mut bucket = self.count_to_token_id_pairs.remove(&old_count).unwrap();
            bucket.remove(&token_id_pair);
            let now_empty = bucket.is_empty();
            let ghost rest = bucket@;
            self.count_to_token_id_pairs.insert(old_count, bucket);
            if self.max_token_id_pair_count == old_count && now_empty {
                self.shrink_max(token_id_pair);
                proof { shrunk = true; }
            } else if self.max_token_id_pair_count == old_count {
                proof {
                    assert(exists|k: u64| rest.contains(k)) by {
                        if !(exists|k: u64| rest.contains(k)) {
                            assert(rest =~= Set::<u64>::empty());
                        }
                    }
                    let k = choose|k: u64| rest.contains(k);
                    assert(old_buckets[old_count]@.contains(k));
                    assert(self.token_id_pair_info@.contains_key(k) && k != token_id_pair
                        && self.token_id_pair_info@[k].count == self.max_token_id_pair_count);
                }
            }
        }
        proof {
            assert forall|k: u64| #[trigger] self.token_id_pair_info@.contains_key(k) && k != token_id_pair
                implies 0 < self.token_id_pair_info@[k].count <= self.max_token_id_pair_count by {
                assert(old_info.contains_key(k));
            }
            if !shrunk && self.max_token_id_pair_count > 0 && self.max_token_id_pair_count != old_count {
                let k0 = choose|k: u64| #[trigger] old_info.contains_key(k) && old_info[k].count == old_max;
                assert(k0 != token_id_pair);
                assert(self.token_id_pair_info@.contains_key(k0));
            }
            assert(self.max_token_id_pair_count > 0 ==> exists|k: u64| #[trigger] self.token_id_pair_info@.contains_key(k)
                && k != token_id_pair && self.token_id_pair_info@[k].count == self.max_token_id_pair_count);
        }

        let ghost pre_info = self.token_id_pair_info@;
        if new_count == 0 {
            self.token_id_pair_info.remove(&token_id_pair);
            proof {
                assert forall|k: u64| #[trigger] self.token_id_pair_info@.contains_key(k)
                    implies self.count_to_token_id_pairs@.contains_key(self.token_id_pair_info@[k].count)
                        && self.count_to_token_id_pairs@[self.token_id_pair_info@[k].count]@.contains(k) by {
                    assert(old_info.contains_key(k));
                }
                assert forall|c: u32, k: u64| self.count_to_token_id_pairs@.contains_key(c)
                    && #[trigger] self.count_to_token_id_pairs@[c]@.contains(k)
                    implies self.token_id_pair_info@.contains_key(k) && self.token_id_pair_info@[k].count == c by {
                    assert(old_buckets.contains_key(c));
                }
                assert forall|k: u64| #[trigger] self.token_id_pair_info@.contains_key(k)
                    implies 0 < self.token_id_pair_info@[k].count <= self.max_token_id_pair_count by {
                    assert(k != token_id_pair);
                }
                if self.max_token_id_pair_count > 0 {
                    let k = choose|k: u64| #[trigger] pre_info.contains_key(k)
                        && k != token_id_pair && pre_info[k].count == self.max_token_id_pair_count;
                    assert(self.token_id_pair_info@.contains_key(k));
                }
                assert(self.index_wf());
            }
            return;
        }

        let mut bucket = match self.count_to_token_id_pairs.remove(&new_count) {
            Some(existing) => existing,
            None => HashSet::new(),
        };
        bucket.insert(token_id_pair);
        self.count_to_token_id_pairs.insert(new_count, bucket);
        if new_count > self.max_token_id_pair_count {
            self.max_token_id_pair_count = new_count;
        }
        proof {
            assert forall|k: u64| #[trigger] self.token_id_pair_info@.contains_key(k)
                implies self.count_to_token_id_pairs@.contains_key(self.token_id_pair_info@[k].count)
                    && self.count_to_token_id_pairs@[self.token_id_pair_info@[k].count]@.contains(k) by {
                if k != token_id_pair {
                    assert(old_info.contains_key(k));
                }
            }
            assert forall|c: u32, k: u64| self.count_to_token_id_pairs@.contains_key(c)
                && #[trigger] self.count_to_token_id_pairs@[c]@.contains(k)
                implies self.token_id_pair_info@.contains_key(k) && self.token_id_pair_info@[k].count == c by {
                if k != token_id_pair {
                    if c != new_count {
                        assert(old_buckets.contains_key(c));
                    }
                }
            }
            if self.max_token_id_pair_count == new_count {
                assert(self.token_id_pair_info@.contains_key(token_id_pair));
            }
            assert(self.index_wf());
        }
    }
}

/// Every learned merge is known to the vocabulary, with the bytes of its
/// parts concatenated.
pub open spec fn merges_sound(v: Map<TokenId, Seq<u8>>, mm: Map<(TokenId, TokenId), TokenId>) -> bool {
    forall|p: (TokenId, TokenId)| #[trigger] mm.contains_key(p) ==>
        v.contains_key(p.0) && v.contains_key(p.1) && v.contains_key(mm[p]) && v[mm[p]] == v[p.0] + v[p.1]
}

/// Byte view of a vocabulary table.
pub open spec fn vocab_view(v: Map<TokenId, Vec<u8>>) -> Map<TokenId, Seq<u8>> {
    v.map_values(|bytes: Vec<u8>| bytes@)
}

/// Pair view of a merge table keyed by packed pairs.
pub open spec fn merges_view(m: Map<u64, TokenId>) -> Map<(TokenId, TokenId), TokenId> {
    Map::new(|p: (TokenId, TokenId)| m.contains_key(model::pair_key(p)), |p: (TokenId, TokenId)| m[model::pair_key(p)])
}

impl BPE {
    /// The pair in the highest non-empty bucket with the smallest packed key.
    fn best_token_id_pair(&self) -> (r: Option<(TokenId, TokenId)>)
        requires
            self.index_wf(),
        ensures
            r is None ==> forall|k: u64| !self.token_id_pair_info@.contains_key(k),
            r matches Some(p) ==> {
                let k = model::pair_key(p);
                &&& self.token_id_pair_info@.contains_key(k)
                &&& forall|k2: u64| #[trigger] self.token_id_pair_info@.contains_key(k2) ==>
                    self.token_id_pair_info@[k2].count < self.token_id_pair_info@[k].count
                    || (self.token_id_pair_info@[k2].count == self.token_id_pair_info@[k].count && k <= k2)
            },
    {
        let r = match self.count_to_token_id_pairs.get(&self.max_token_id_pair_count) {
            Some(bucket) => match min_item(bucket) {
                Some(k) => Some(unpack_pair(k)),
                None => None,
            },
            None => None,
        };
        proof {
            let info = self.token_id_pair_info@;
            let max = self.max_token_id_pair_count;
            if max > 0 {
                let k0 = choose|k: u64| #[trigger] info.contains_key(k) && info[k].count == max;
                assert(self.count_to_token_id_pairs@[max]@.contains(k0));
            } else {
                assert forall|k: u64| !info.contains_key(k) by {
                    if info.contains_key(k) {
                        assert(info[k].count <= max);
                    }
                }
            }
            if let Some(p) = r {
                let k = model::pair_key(p);
                assert(self.count_to_token_id_pairs@[max]@.contains(k));
                assert forall|k2: u64| #[trigger] info.contains_key(k2) implies
                    info[k2].count < info[k].count || (info[k2].count == info[k].count && k <= k2) by {
                    if info[k2].count == max {
                        assert(self.count_to_token_id_pairs@[max]@.contains(k2));
                    }
                }
            }
        }
        r
    }

    /// Removes the pair's entry (whose count must be the maximum) and returns its
    /// recorded locations in increasing order.
    fn take_token_id_pair_occurrences(&mut self, token_id_pair: (TokenId, TokenId)) -> (r: Vec<u64>)
        requires
            old(self).index_wf(),
            old(self).token_id_pair_info@.contains_key(model::pair_key(token_id_pair)) ==>
                old(self).token_id_pair_info@[model::pair_key(token_id_pair)].count == old(self).max_token_id_pair_count,
        ensures
            final(self).index_wf(),
            final(self).same_model(*old(self)),
            r@.to_set() == info_occ(old(self).token_id_pair_info@, model::pair_key(token_id_pair)),
            forall|i: int, j: int| 0 <= i < j < r@.len() ==> r@[i] < r@[j],
            forall|k: u64| #[trigger] info_count(final(self).token_id_pair_info@, k) ==
                if k == model::pair_key(token_id_pair) { 0 } else { info_count(old(self).token_id_pair_info@, k) },
            forall|k: u64| #[trigger] info_occ(final(self).token_id_pair_info@, k) ==
                if k == model::pair_key(token_id_pair) { Set::empty() } else { info_occ(old(self).token_id_pair_info@, k) },
    {
        let key = pack_pair(token_id_pair.0, token_id_pair.1);
        let ghost old_info = self.token_id_pair_info@;
        let ghost old_buckets = self.count_to_token_id_pairs@;
        let removed = self.token_id_pair_info.remove(&key);
        match removed {
            Some(info) => {
                let occurrences = sorted_items(&info.occurrences);
                let max = self.max_token_id_pair_count;
                let mut bucket = match self.count_to_token_id_pairs.remove(&max) {
                    Some(existing) => existing,
                    None => HashSet::new(),
                };
                bucket.remove(&key);
                self.count_to_token_id_pairs.insert(max, bucket);
                proof {
                    assert forall|k: u64| #[trigger] self.token_id_pair_info@.contains_key(k) && k != key implies
                        self.count_to_token_id_pairs@.contains_key(self.token_id_pair_info@[k].count)
                        && self.count_to_token_id_pairs@[self.token_id_pair_info@[k].count]@.contains(k) by {
                        assert(old_info.contains_key(k));
                    }
                    assert forall|c: u32, k: u64| self.count_to_token_id_pairs@.contains_key(c)
                        && #[trigger] self.count_to_token_id_pairs@[c]@.contains(k)
                        implies k != key && self.token_id_pair_info@.contains_key(k) && self.token_id_pair_info@[k].count == c by {
                        if c != max {
                            assert(old_buckets.contains_key(c));
                        }
                    }
                }
                self.shrink_max(key);
                proof {
                    assert forall|k: u64| #[trigger] self.token_id_pair_info@.contains_key(k)
                        implies 0 < self.token_id_pair_info@[k].count <= self.max_token_id_pair_count by {
                        assert(old_info.contains_key(k));
                    }
                    assert(self.index_wf());
                }
                occurrences
            },
            None => {
                let empty: Vec<u64> = Vec::new();
                proof {
                    assert(empty@.to_set() =~= Set::<u64>::empty());
                    assert(self.token_id_pair_info@ == old_info);
                }
                empty
            },
        }
    }

    /// Merges the occurrence of `token_id_pair` whose left node sits at
    /// `(merge_sequence_index, left_slot)`, if it is still there, and moves the
    /// counts of the neighbouring pairs to the merged token.
    ///
    /// Every count stays within `u32`: each pair next to a merged token
    /// stands for a distinct occurrence of a pair of the chunks with the
    /// merged token spelled out again, and those counts fit.
    #[verifier::spinoff_prover]
    #[verifier::rlimit(40)]
    fn apply_token_id_pair_merge_at(
        &mut self,
        merge_sequences: &mut Vec<WeightedMergeSequence>,
        token_id_pair: (TokenId, TokenId),
        merged_id: TokenId,
        merge_sequence_index: MergeSequenceIndex,
        left_slot: MergeNodeSlot,
    )
        requires
            old(self).index_wf(),
            consistent(old(self).token_id_pair_info@, old(merge_sequences)@, Some(model::pair_key(token_id_pair))),
            seqs_wf(old(merge_sequences)@),
            (merge_sequence_index as int) < old(merge_sequences)@.len(),
            (left_slot as int) < old(merge_sequences)@[merge_sequence_index as int].merge_sequence.slots@.len(),
            merged_id != token_id_pair.0,
            merged_id != token_id_pair.1,
            model::counts_fit(model::unmerge_ws(seqs_view(old(merge_sequences)@), token_id_pair, merged_id)),
        ensures
            final(self).index_wf(),
            final(self).same_model(*old(self)),
            consistent(final(self).token_id_pair_info@, final(merge_sequences)@, Some(model::pair_key(token_id_pair))),
            seqs_wf(final(merge_sequences)@),
            model::unmerge_ws(seqs_view(final(merge_sequences)@), token_id_pair, merged_id)
                == model::unmerge_ws(seqs_view(old(merge_sequences)@), token_id_pair, merged_id),
            merge_step(old(merge_sequences)@, final(merge_sequences)@, token_id_pair, merged_id, merge_sequence_index as int, left_slot),
    {
        let idx = merge_sequence_index as usize;
        let ghost seqs0 = merge_sequences@;
        let ghost ms = seqs0[idx as int].merge_sequence;
        proof {
            assert(ms.wf());
        }
        let frequency: i64 = merge_sequences[idx].frequency as i64;
        let left_node = match merge_sequences[idx].merge_sequence.slots[left_slot as usize] {
            Some(node) => node,
            None => return,
        };
        let right_slot = match left_node.next {
            Some(slot) => slot,
            None => return,
        };
        let ghost k = ms.position(left_slot);
        proof {
            ms.lemma_live_position(left_slot as int);
            assert(links_match(ms.order@, k, ms.node(left_slot as int)));
            assert(ms.live(ms.order@[k + 1] as int));
        }
        let right_node = merge_sequences[idx].merge_sequence.slots[right_slot as usize].unwrap();
        if left_node.token_id != token_id_pair.0 || right_node.token_id != token_id_pair.1 {
            return;
        }
        let prev = left_node.prev;
        let next = right_node.next;
        proof {
            ms.lemma_pair_at_position(k);
            assert(links_match(ms.order@, k + 1, ms.node(right_slot as int)));
            if k > 0 {
                assert(ms.live(ms.order@[k - 1] as int));
                ms.lemma_pair_at_position(k - 1);
            }
            if k + 2 < ms.order@.len() {
                assert(ms.live(ms.order@[k + 2] as int));
                ms.lemma_pair_at_position(k + 1);
            }
        }
        let prev_id: Option<TokenId> = match prev {
            Some(pos) => Some(merge_sequences[idx].merge_sequence.slots[pos as usize].unwrap().token_id),
            None => None,
        };
        let next_id: Option<TokenId> = match next {
            Some(pos) => Some(merge_sequences[idx].merge_sequence.slots[pos as usize].unwrap().token_id),
            None => None,
        };
        let ghost info0 = self.token_id_pair_info@;
        let new_slot = merge_sequences[idx].merge_sequence.splice(left_slot, right_slot, merged_id);
        let ghost seqs2 = merge_sequences@;
        proof {
            let ws = seqs_view(seqs0);
            assert(ws[idx as int] == (ms@, seqs0[idx as int].frequency));
            assert(seqs_view(seqs2) =~= ws.update(idx as int, (ms@.update(k, merged_id).remove(k + 1), seqs0[idx as int].frequency)));
            assert forall|j: int| 0 <= j < seqs2.len() implies (#[trigger] seqs2[j]).merge_sequence.wf() && seqs2[j].frequency > 0 by {
                if j != idx as int {
                    assert(seqs2[j] == seqs0[j]);
                }
            }
            assert(seqs2.len() == seqs0.len());
            assert(seqs_wf(seqs2));
            model::lemma_unmerge_splice(ms@, k, token_id_pair, merged_id);
            assert(model::unmerge_ws(seqs_view(seqs2), token_id_pair, merged_id)
                =~= model::unmerge_ws(ws, token_id_pair, merged_id));
            assert(merge_step(seqs0, seqs2, token_id_pair, merged_id, idx as int, left_slot));
            model::lemma_pair_key(token_id_pair);
        }
        let ghost f = frequency as int;
        let ghost pl_key = model::pair_key((ms@[k - 1], token_id_pair.0));
        let ghost lp = model::pair_key((merge_sequence_index, ms.order@[k - 1]));
        let ghost lr = model::pair_key((merge_sequence_index, right_slot));
        let ghost mut info1 = info0;
        if let (Some(prev_id), Some(prev_slot)) = (prev_id, prev) {
            if prev_id != token_id_pair.0 || token_id_pair.0 != token_id_pair.1 {
                proof {
                    model::lemma_key_order((prev_id, token_id_pair.0), token_id_pair);
                    model::lemma_pair_key((merge_sequence_index, prev_slot));
                    assert(occurs_at(seqs0, lp, (prev_id, token_id_pair.0)));
                    lemma_occurs_count(seqs0, lp, (prev_id, token_id_pair.0));
                }
                self.adjust(pack_pair(prev_id, token_id_pair.0), merge_sequence_index, prev_slot, -frequency);
            }
            proof {
                info1 = self.token_id_pair_info@;
                model::lemma_key_order((prev_id, merged_id), token_id_pair);
                model::lemma_key_order((prev_id, merged_id), (prev_id, token_id_pair.0));
                // the new left pair and the left pair it replaces both spell out
                // as the same pair, whose count fits
                model::lemma_pair_key((merge_sequence_index, prev_slot));
                assert(occurs_at(seqs0, lp, (prev_id, token_id_pair.0)));
                lemma_occurs_count(seqs0, lp, (prev_id, token_id_pair.0));
                model::lemma_unmerge_total(seqs_view(seqs0), token_id_pair, merged_id,
                    (prev_id, merged_id), (prev_id, token_id_pair.0));
                model::lemma_pair_key((prev_id, merged_id));
                assert(info_count(info0, model::pair_key((prev_id, merged_id)))
                    == model::total_count(seqs_view(seqs0), (prev_id, merged_id)) as int);
            }
            self.adjust(pack_pair(prev_id, merged_id), merge_sequence_index, prev_slot, frequency);
        }
        let ghost info2 = self.token_id_pair_info@;
        let ghost mut info3 = info2;
        if let Some(next_id) = next_id {
            if token_id_pair.1 != token_id_pair.0 || next_id != token_id_pair.1 {
                proof {
                    let x = (token_id_pair.1, next_id);
                    model::lemma_key_order(x, token_id_pair);
                    model::lemma_pair_key((merge_sequence_index, right_slot));
                    assert(occurs_at(seqs0, lr, x));
                    lemma_occurs_count(seqs0, lr, x);
                    if k > 0 {
                        let pt = ms@[k - 1];
                        model::lemma_key_order((pt, token_id_pair.0), x);
                        model::lemma_key_order((pt, merged_id), x);
                        model::lemma_pair_key((merge_sequence_index, ms.order@[k - 1]));
                        assert(ms.order@[k - 1] < ms.order@[k + 1]);
                        model::lemma_key_order((merge_sequence_index, ms.order@[k - 1]), (merge_sequence_index, right_slot));
                        if (pt, token_id_pair.0) == x && (pt, token_id_pair.0) != token_id_pair {
                            lemma_two_occurrences(seqs0, lp, lr, x);
                        }
                    }
                }
                self.adjust(pack_pair(token_id_pair.1, next_id), merge_sequence_index, right_slot, -frequency);
            }
            proof {
                info3 = self.token_id_pair_info@;
                lemma_apply_count_before_last(seqs0, seqs2, info0, info1, info2, info3,
                    token_id_pair, merged_id, merge_sequence_index, left_slot);
                model::lemma_unmerge_total(seqs_view(seqs2), token_id_pair, merged_id, (merged_id, next_id), (merged_id, next_id));
                assert(model::total_count(model::unmerge_ws(seqs_view(seqs0), token_id_pair, merged_id),
                    model::lift_pair((merged_id, next_id), token_id_pair, merged_id)) <= u32::MAX);
            }
            self.adjust(pack_pair(merged_id, next_id), merge_sequence_index, new_slot, frequency);
        }
        proof {
            let info4 = self.token_id_pair_info@;
            assert(apply_chain(seqs0, info0, info1, info2, info3, info4, token_id_pair, merged_id,
                merge_sequence_index, left_slot));
            lemma_apply_consistent(seqs0, seqs2, info0, info1, info2, info3, info4, token_id_pair, merged_id,
                merge_sequence_index, left_slot);
        }
    }

    /// Merges every recorded occurrence of `token_id_pair` into `merged_id`,
    /// visiting the locations in increasing order so that each chunk is merged
    /// greedily from left to right.
    fn merge_occurrences(
        &mut self,
        merge_sequences: &mut Vec<WeightedMergeSequence>,
        token_id_pair: (TokenId, TokenId),
        merged_id: TokenId,
        occurrences: &Vec<u64>,
    )
        requires
            old(self).index_wf(),
            consistent(old(self).token_id_pair_info@, old(merge_sequences)@, Some(model::pair_key(token_id_pair))),
            seqs_wf(old(merge_sequences)@),
            occurrences@.to_set() == occ_set(old(merge_sequences)@, token_id_pair),
            sorted_locations(occurrences@),
            merged_id != token_id_pair.0,
            merged_id != token_id_pair.1,
            model::counts_fit(seqs_view(old(merge_sequences)@)),
            model::unmerge_ws(seqs_view(old(merge_sequences)@), token_id_pair, merged_id) == seqs_view(old(merge_sequences)@),
        ensures
            final(self).index_wf(),
            final(self).same_model(*old(self)),
            consistent(final(self).token_id_pair_info@, final(merge_sequences)@, Some(model::pair_key(token_id_pair))),
            seqs_wf(final(merge_sequences)@),
            seqs_view(final(merge_sequences)@) == model::merge_ws(seqs_view(old(merge_sequences)@), token_id_pair, merged_id),
    {
        let ghost s0 = merge_sequences@;
        let ghost t0 = seqs_view(s0);
        let ghost mut qs: Seq<int> = Seq::new(s0.len(), |i: int| 0int);
        proof {
            lemma_round_start(s0, token_id_pair, merged_id, occurrences@);
            assert forall|x: int| 0 <= x < occurrences@.len() implies
                #[trigger] occurs_at(s0, occurrences@[x], token_id_pair) by {
                assert(occurrences@.to_set().contains(occurrences@[x]));
            }
        }
        let mut n: usize = 0;
        while n < occurrences.len()
            invariant
                n <= occurrences@.len(),
                self.index_wf(),
                self.same_model(*old(self)),
                consistent(self.token_id_pair_info@, merge_sequences@, Some(model::pair_key(token_id_pair))),
                seqs_wf(merge_sequences@),
                round_inv(merge_sequences@, t0, qs, token_id_pair, merged_id, occurrences@, n as int),
                sorted_locations(occurrences@),
                forall|x: int| 0 <= x < occurrences@.len() ==> #[trigger] occurs_at(s0, occurrences@[x], token_id_pair),
                forall|i: int| 0 <= i < s0.len() ==> (#[trigger] merge_sequences@[i]).merge_sequence.slots@.len()
                    == s0[i].merge_sequence.slots@.len(),
                merge_sequences@.len() == s0.len(),
                merged_id != token_id_pair.0,
                merged_id != token_id_pair.1,
                model::counts_fit(t0),
                model::unmerge_ws(seqs_view(merge_sequences@), token_id_pair, merged_id) == t0,
            decreases occurrences@.len() - n,
        {
            let loc = occurrences[n];
            let (idx, slot) = unpack_pair(loc);
            proof {
                assert(occurs_at(s0, loc, token_id_pair));
                assert(s0[idx as int].merge_sequence.live(slot as int));
            }
            let ghost pre = merge_sequences@;
            self.apply_token_id_pair_merge_at(merge_sequences, token_id_pair, merged_id, idx, slot);
            proof {
                qs = lemma_round_step(pre, merge_sequences@, t0, qs, token_id_pair, merged_id, occurrences@, n as int);
                assert forall|i: int| 0 <= i < s0.len() implies (#[trigger] merge_sequences@[i]).merge_sequence.slots@.len()
                    == s0[i].merge_sequence.slots@.len() by {
                    if i != idx as int {
                        assert(merge_sequences@[i] == pre[i]);
                    }
                }
            }
            n = n + 1;
        }
        proof {
            lemma_round_done(merge_sequences@, t0, qs, token_id_pair, merged_id, occurrences@);
        }
    }

    /// Learns merges from the chunks until `vocab_size` is reached or no pair
    /// is left, handing out ids from the byte vocabulary's end upwards and
    /// skipping `reserved` ones.
    pub(crate) fn learn_merges(&mut self, merge_sequences: &mut Vec<WeightedMergeSequence>, vocab_size: TokenId, reserved: &HashSet<u32>)
        requires
            old(self).index_wf(),
            consistent(old(self).token_id_pair_info@, old(merge_sequences)@, None),
            seqs_wf(old(merge_sequences)@),
            model::ws_tokens_in(seqs_view(old(merge_sequences)@), Set::new(|x: TokenId| x < BASE_VOCAB_SIZE)),
            model::ws_tokens_in(seqs_view(old(merge_sequences)@), old(self).vocab@.dom()),
            merges_sound(vocab_view(old(self).vocab@), merges_view(old(self).merge_map@)),
            forall|x: TokenId| #[trigger] old(self).vocab@.contains_key(x) ==> x < BASE_VOCAB_SIZE || reserved@.contains(x),
        ensures
            merges_sound(vocab_view(final(self).vocab@), merges_view(final(self).merge_map@)),
            forall|x: TokenId| x < BASE_VOCAB_SIZE || reserved@.contains(x) ==>
                (#[trigger] vocab_view(final(self).vocab@).contains_key(x) == vocab_view(old(self).vocab@).contains_key(x)
                && vocab_view(final(self).vocab@)[x] == vocab_view(old(self).vocab@)[x]),
            ({
                let learned = model::train_merges(seqs_view(old(merge_sequences)@),
                    model::merge_ids(BASE_VOCAB_SIZE as int, vocab_size as int, reserved@));
                &&& merges_view(final(self).merge_map@) == model::merges_map(merges_view(old(self).merge_map@), learned)
                &&& vocab_view(final(self).vocab@) == model::vocab_after(vocab_view(old(self).vocab@), learned)
                &&& seqs_view(final(merge_sequences)@) == model::apply_merges(seqs_view(old(merge_sequences)@), learned)
            }),
            final(self).split_pattern_source == old(self).split_pattern_source,
            final(self).special_split_pattern_source == old(self).special_split_pattern_source,
            final(self).special_tokens == old(self).special_tokens,
            final(self).merge_sequences == old(self).merge_sequences,
            final(self).index_wf(),
            consistent(final(self).token_id_pair_info@, final(merge_sequences)@, None),
            seqs_wf(final(merge_sequences)@),
            final(merge_sequences)@.len() == old(merge_sequences)@.len(),
            forall|i: int| 0 <= i < old(merge_sequences)@.len() ==>
                (#[trigger] final(merge_sequences)@[i]).frequency == old(merge_sequences)@[i].frequency,
    {
        let ghost ws0 = seqs_view(merge_sequences@);
        let ghost m0 = merges_view(self.merge_map@);
        let ghost v0 = vocab_view(self.vocab@);
        let ghost all_ids = model::merge_ids(BASE_VOCAB_SIZE as int, vocab_size as int, reserved@);
        let ghost mut learned: Seq<((TokenId, TokenId), TokenId)> = Seq::empty();
        let mut merged_id: u32 = BASE_VOCAB_SIZE;
        let mut done = false;
        proof {
            assert(learned + model::train_merges(ws0, all_ids) =~= model::train_merges(ws0, all_ids));
        }
        while merged_id < vocab_size && !done
            invariant
                BASE_VOCAB_SIZE <= merged_id,
                merged_id <= vocab_size || merged_id == BASE_VOCAB_SIZE,
                self.index_wf(),
                consistent(self.token_id_pair_info@, merge_sequences@, None),
                seqs_wf(merge_sequences@),
                model::ws_tokens_in(seqs_view(merge_sequences@), Set::new(|x: TokenId| x < merged_id)),
                model::ws_tokens_in(seqs_view(merge_sequences@), self.vocab@.dom()),
                done ==> !model::has_pair(seqs_view(merge_sequences@)),
                learned + model::train_merges(seqs_view(merge_sequences@),
                    model::merge_ids(merged_id as int, vocab_size as int, reserved@)) == model::train_merges(ws0, all_ids),
                merges_view(self.merge_map@) == model::merges_map(m0, learned),
                vocab_view(self.vocab@) == model::vocab_after(v0, learned),
                seqs_view(merge_sequences@) == model::apply_merges(ws0, learned),
                merges_sound(vocab_view(self.vocab@), merges_view(self.merge_map@)),
                forall|x: TokenId| #[trigger] self.vocab@.contains_key(x) ==> x < BASE_VOCAB_SIZE || reserved@.contains(x) || x < merged_id,
                forall|x: TokenId| x < BASE_VOCAB_SIZE || reserved@.contains(x) ==>
                    (#[trigger] vocab_view(self.vocab@).contains_key(x) == v0.contains_key(x)
                    && vocab_view(self.vocab@)[x] == v0[x]),
                self.split_pattern_source == old(self).split_pattern_source,
                self.special_split_pattern_source == old(self).special_split_pattern_source,
                self.special_tokens == old(self).special_tokens,
                self.merge_sequences == old(self).merge_sequences,
                merge_sequences@.len() == ws0.len(),
                forall|i: int| 0 <= i < ws0.len() ==> (#[trigger] seqs_view(merge_sequences@)[i]).1 == ws0[i].1,
            decreases vocab_size - merged_id, if done { 0int } else { 1int },
        {
            if reserved.contains(&merged_id) {
                proof {
                    assert forall|x: TokenId| #[trigger] self.vocab@.contains_key(x) implies
                        x < BASE_VOCAB_SIZE || reserved@.contains(x) || x < merged_id + 1 by {}
                    assert(model::merge_ids(merged_id as int, vocab_size as int, reserved@)
                        == model::merge_ids(merged_id as int + 1, vocab_size as int, reserved@));
                    assert forall|i: int| 0 <= i < seqs_view(merge_sequences@).len() implies
                        model::tokens_in(#[trigger] seqs_view(merge_sequences@)[i].0, Set::new(|x: TokenId| x < merged_id + 1)) by {
                        assert(model::tokens_in(seqs_view(merge_sequences@)[i].0, Set::new(|x: TokenId| x < merged_id)));
                    }
                }
                merged_id = merged_id + 1;
                continue;
            }
            let ghost ws = seqs_view(merge_sequences@);
            let ghost below = Set::new(|x: TokenId| x < merged_id);
            match self.best_token_id_pair() {
                None => {
                    proof {
                        assert(!model::has_pair(ws)) by {
                            if model::has_pair(ws) {
                                let q = choose|q: (TokenId, TokenId)| #[trigger] model::total_count(ws, q) > 0;
                                model::lemma_pair_key(q);
                                assert(info_count(self.token_id_pair_info@, model::pair_key(q))
                                    == model::total_count(ws, q) as int);
                            }
                        }
                    }
                    done = true;
                },
                Some(best) => {
                    let ghost info = self.token_id_pair_info@;
                    let ghost bk = model::pair_key(best);
                    proof {
                        model::lemma_pair_key(best);
                        assert(info_count(info, bk) == model::total_count(ws, best) as int);
                        assert forall|q: (TokenId, TokenId)| #[trigger] model::total_count(ws, q) > 0 implies
                            model::total_count(ws, q) < model::total_count(ws, best)
                            || (model::total_count(ws, q) == model::total_count(ws, best) && !model::pair_less(q, best)) by {
                            model::lemma_pair_key(q);
                            model::lemma_key_order(best, q);
                            assert(info_count(info, model::pair_key(q)) == model::total_count(ws, q) as int);
                            assert(info.contains_key(model::pair_key(q)));
                        }
                        assert(model::is_best_pair(ws, best));
                        model::lemma_best_pair_unique(ws, best);
                        model::lemma_pair_tokens_in(ws, best, below);
                        model::lemma_pair_tokens_in(ws, best, self.vocab@.dom());
                        if self.max_token_id_pair_count > 0 {
                            let k0 = choose|k: u64| #[trigger] info.contains_key(k) && info[k].count == self.max_token_id_pair_count;
                            assert(info[k0].count <= info[bk].count);
                        }
                    }
                    let ghost vocab_before = self.vocab@;
                    let ghost mm_before = self.merge_map@;
                    proof {
                        assert(!self.vocab@.contains_key(merged_id));
                    }
                    self.register_merged_token(merged_id, best);
                    proof {
                        let v1 = vocab_view(self.vocab@);
                        let vb = vocab_view(vocab_before);
                        let mm1 = merges_view(self.merge_map@);
                        let mmb = merges_view(mm_before);
                        assert(!vb.contains_key(merged_id));
                        assert forall|p: (TokenId, TokenId)| #[trigger] mm1.contains_key(p) implies
                            v1.contains_key(p.0) && v1.contains_key(p.1) && v1.contains_key(mm1[p])
                            && v1[mm1[p]] == v1[p.0] + v1[p.1] by {
                            if p != best {
                                assert(mmb.contains_key(p));
                                assert(vb.contains_key(p.0) && vb.contains_key(p.1) && vb.contains_key(mmb[p]));
                            }
                        }
                        assert(merges_sound(v1, mm1));
                        assert forall|x: TokenId| #[trigger] self.vocab@.contains_key(x) implies
                            x < BASE_VOCAB_SIZE || reserved@.contains(x) || x < merged_id + 1 by {
                            if x != merged_id {
                                assert(v1.contains_key(x));
                                assert(vb.contains_key(x));
                                assert(vocab_before.contains_key(x));
                            }
                        }
                    }
                    let occurrences = self.take_token_id_pair_occurrences(best);
                    proof {
                        assert(occurrences@.to_set() == occ_set(merge_sequences@, best));
                        assert forall|k: u64| Some(k) != Some(bk) implies
                            #[trigger] info_count(self.token_id_pair_info@, k)
                                == model::total_count(seqs_view(merge_sequences@), model::key_pair(k)) as int by {
                            assert(info_count(info, k) == model::total_count(ws, model::key_pair(k)) as int);
                        }
                        assert forall|k: u64| Some(k) != Some(bk) implies
                            #[trigger] info_occ(self.token_id_pair_info@, k) == occ_set(merge_sequences@, model::key_pair(k)) by {
                            assert(info_occ(info, k) == occ_set(merge_sequences@, model::key_pair(k)));
                        }
                        assert(info_count(self.token_id_pair_info@, bk) == 0);
                        assert(!self.token_id_pair_info@.contains_key(bk));
                        assert(consistent(self.token_id_pair_info@, merge_sequences@, Some(bk)));
                        // the counts recorded before the round fit the counters
                        assert forall|q: (TokenId, TokenId)| #[trigger] model::total_count(ws, q) <= u32::MAX by {
                            model::lemma_pair_key(q);
                            assert(info_count(info, model::pair_key(q)) == model::total_count(ws, q) as int);
                        }
                        assert(!below.contains(merged_id));
                        model::lemma_unmerge_ws_fresh(ws, best, merged_id, below);
                    }
                    self.merge_occurrences(merge_sequences, best, merged_id, &occurrences);
                    proof {
                        let ws2 = seqs_view(merge_sequences@);
                        assert(ws2 == model::merge_ws(ws, best, merged_id));
                        model::lemma_merge_ws_no_pair(ws, best, merged_id);
                        lemma_count_zero_no_occurrence(merge_sequences@, best);
                        model::lemma_key_pair(bk);
                        assert(info_count(self.token_id_pair_info@, bk) == 0);
                        assert(info_occ(self.token_id_pair_info@, bk) =~= Set::<u64>::empty());
                        assert(consistent(self.token_id_pair_info@, merge_sequences@, None));
                        model::lemma_merge_ws_tokens(ws, best, merged_id, below);
                        assert(below.insert(merged_id) =~= Set::new(|x: TokenId| x < merged_id + 1));
                        model::lemma_merge_ws_tokens(ws, best, merged_id, vocab_before.dom());
                        assert(self.vocab@.dom() =~= vocab_before.dom().insert(merged_id)) by {
                            assert(self.vocab@.dom() =~= vocab_view(self.vocab@).dom());
                            assert(vocab_before.dom() =~= vocab_view(vocab_before).dom());
                        }
                        let ids = model::merge_ids(merged_id as int, vocab_size as int, reserved@);
                        assert(ids == seq![merged_id] + model::merge_ids(merged_id as int + 1, vocab_size as int, reserved@));
                        assert(ids.drop_first() =~= model::merge_ids(merged_id as int + 1, vocab_size as int, reserved@));
                        assert(model::train_merges(ws, ids) == seq![(best, merged_id)]
                            + model::train_merges(ws2, ids.drop_first()));
                        let x = (best, merged_id);
                        assert(learned.push(x) + model::train_merges(ws2, ids.drop_first())
                            =~= learned + (seq![x] + model::train_merges(ws2, ids.drop_first())));
                        model::lemma_merges_map_push(m0, learned, x);
                        model::lemma_vocab_after_push(v0, learned, x);
                        model::lemma_apply_merges_push(ws0, learned, x);
                        learned = learned.push(x);
                    }
                    merged_id = merged_id + 1;
                },
            }
        }
        proof {
            let ws = seqs_view(merge_sequences@);
            let ids = model::merge_ids(merged_id as int, vocab_size as int, reserved@);
            assert forall|i: int| 0 <= i < old(merge_sequences)@.len() implies
                (#[trigger] merge_sequences@[i]).frequency == old(merge_sequences)@[i].frequency by {
                assert(seqs_view(merge_sequences@)[i].1 == ws0[i].1);
            }
            assert(model::train_merges(ws, ids) =~= Seq::<((TokenId, TokenId), TokenId)>::empty());
            assert(learned =~= learned + model::train_merges(ws, ids));
        }
    }

    /// Counts every adjacent token-id pair of the chunks, weighted by the
    /// chunk frequency, and records the location of every left node.
    ///
    /// Fails with `CountOverflow`, leaving a partial table, exactly when some
    /// pair's weighted count does not fit a `u32`.
    pub(crate) fn build_initial_token_id_pair_stats(&mut self, merge_sequences: &Vec<WeightedMergeSequence>) -> (r: Result<(), BPEError>)
        requires
            old(self).index_wf(),
            forall|k: u64| !old(self).token_id_pair_info@.contains_key(k),
            seqs_wf(merge_sequences@),
        ensures
            final(self).index_wf(),
            final(self).same_model(*old(self)),
            r is Ok <==> model::counts_fit(seqs_view(merge_sequences@)),
            r matches Err(e) ==> e is CountOverflow,
            r is Ok ==> consistent(final(self).token_id_pair_info@, merge_sequences@, None),
    {
        let ghost seqs = merge_sequences@;
        let ghost ws = seqs_view(seqs);
        let mut a: usize = 0;
        proof {
            assert forall|k: u64| #[trigger] info_count(self.token_id_pair_info@, k)
                == model::total_count(ws.take(0), model::key_pair(k)) as int by {
                assert(ws.take(0) =~= Seq::<(Seq<TokenId>, u32)>::empty());
            }
            assert forall|k: u64| #[trigger] info_occ(self.token_id_pair_info@, k)
                == occ_prefix(seqs, 0, 0, model::key_pair(k)) by {
                assert(occ_prefix(seqs, 0, 0, model::key_pair(k)) =~= Set::<u64>::empty());
            }
        }
        while a < merge_sequences.len()
            invariant
                a <= seqs.len(),
                seqs == merge_sequences@,
                ws == seqs_view(seqs),
                seqs_wf(seqs),
                self.index_wf(),
                self.same_model(*old(self)),
                forall|k: u64| #[trigger] info_count(self.token_id_pair_info@, k)
                    == model::total_count(ws.take(a as int), model::key_pair(k)) as int,
                forall|k: u64| #[trigger] info_occ(self.token_id_pair_info@, k)
                    == occ_prefix(seqs, a as int, 0, model::key_pair(k)),
            decreases seqs.len() - a,
        {
            let ms = &merge_sequences[a].merge_sequence;
            let frequency: i64 = merge_sequences[a].frequency as i64;
            let nodes = ms.iter();
            let ghost t = ms@;
            let ghost o = ms.order@;
            proof {
                assert(ms.wf());
                assert(ws[a as int] == (t, seqs[a as int].frequency));
            }
            let mut j: usize = 0;
            proof {
                assert forall|k: u64| #[trigger] info_count(self.token_id_pair_info@, k)
                    == model::total_count(ws.take(a as int), model::key_pair(k)) as int
                        + frequency as int * model::num_adj_upto(t, model::key_pair(k), 0) as int by {
                    assert(model::num_adj_upto(t, model::key_pair(k), 0) == 0);
                }
                assert forall|k: u64| #[trigger] info_occ(self.token_id_pair_info@, k)
                    == occ_prefix(seqs, a as int, 0, model::key_pair(k)) by {}
            }
            while j < nodes.len() && j + 1 < nodes.len()
                invariant
                    j <= nodes@.len(),
                    a < seqs.len(),
                    seqs == merge_sequences@,
                    ws == seqs_view(seqs),
                    seqs_wf(seqs),
                    *ms == seqs[a as int].merge_sequence,
                    ms.wf(),
                    t == ms@,
                    o == ms.order@,
                    frequency == seqs[a as int].frequency,
                    ws[a as int] == (t, seqs[a as int].frequency),
                    nodes@.len() == o.len(),
                    forall|x: int| 0 <= x < nodes@.len() ==> (#[trigger] nodes@[x]) == (o[x], ms.node(o[x] as int)),
                    j + 1 <= nodes@.len() || j == 0,
                    self.index_wf(),
                    self.same_model(*old(self)),
                    forall|k: u64| #[trigger] info_count(self.token_id_pair_info@, k)
                        == model::total_count(ws.take(a as int), model::key_pair(k)) as int
                            + frequency as int * model::num_adj_upto(t, model::key_pair(k), j as int) as int,
                    forall|k: u64| #[trigger] info_occ(self.token_id_pair_info@, k)
                        == occ_prefix(seqs, a as int, j as int, model::key_pair(k)),
                decreases nodes@.len() - j,
            {
                let (left_slot, left_node) = nodes[j];
                let (_, right_node) = nodes[j + 1];
                let p = (left_node.token_id, right_node.token_id);
                let key = pack_pair(p.0, p.1);
                let ghost info0 = self.token_id_pair_info@;
                let ghost loc = model::pair_key((a as u32, left_slot));
                proof {
                    model::lemma_pair_key(p);
                    model::lemma_pair_key((a as u32, left_slot));
                    ms.lemma_pair_at_position(j as int);
                    ms.lemma_position(j as int);
                    assert(t[j as int] == p.0 && t[j as int + 1] == p.1);
                    assert(model::pair_of(t, j as int) == p);
                    let fi = frequency as int;
                    let n1 = model::num_adj_upto(t, p, j as int + 1) as int;
                    let n2 = model::num_adj(t, p) as int;
                    model::lemma_num_adj_upto_mono(t, p, j as int + 1, t.len() as int);
                    assert(fi * n1 <= fi * n2) by (nonlinear_arith) requires 0 <= fi, n1 <= n2;
                    assert(fi * model::num_adj_upto(t, p, j as int) as int + fi == fi * n1) by (nonlinear_arith)
                        requires n1 == model::num_adj_upto(t, p, j as int) as int + 1;
                    model::lemma_total_count_take(ws, a as int, p);
                    model::lemma_total_count_take_le(ws, a as int + 1, p);
                }
                let current: u32 = match self.token_id_pair_info.get(&key) {
                    Some(info) => info.count,
                    None => 0,
                };
                if current as i64 + frequency > 0xffff_ffff {
                    proof {
                        assert(current as int == info_count(info0, key));
                        assert(key == model::pair_key(p));
                        assert(model::key_pair(key) == p);
                        assert(info_count(info0, key) == model::total_count(ws.take(a as int), p) as int
                            + frequency as int * model::num_adj_upto(t, p, j as int) as int);
                        assert(ws.take(a as int + 1)[a as int] == ws[a as int]);
                        assert(model::total_count(ws.take(a as int + 1), p) <= model::total_count(ws, p));
                        assert(model::total_count(ws, p) > u32::MAX);
                    }
                    return Err(BPEError::CountOverflow);
                }
                self.adjust(key, a as u32, left_slot, frequency);
                proof {
                    assert forall|k: u64| #[trigger] info_count(self.token_id_pair_info@, k)
                        == model::total_count(ws.take(a as int), model::key_pair(k)) as int
                            + frequency as int * model::num_adj_upto(t, model::key_pair(k), j as int + 1) as int by {
                        let x = model::key_pair(k);
                        model::lemma_key_pair(k);
                        model::lemma_key_order(x, p);
                        let fi = frequency as int;
                        let b: int = if model::pair_of(t, j as int) == x { 1 } else { 0 };
                        assert(model::num_adj_upto(t, x, j as int + 1) as int == model::num_adj_upto(t, x, j as int) as int + b);
                        assert(fi * (model::num_adj_upto(t, x, j as int) as int + b)
                            == fi * model::num_adj_upto(t, x, j as int) as int + fi * b) by (nonlinear_arith);
                    }
                    assert forall|k: u64| #[trigger] info_occ(self.token_id_pair_info@, k)
                        == occ_prefix(seqs, a as int, j as int + 1, model::key_pair(k)) by {
                        let x = model::key_pair(k);
                        model::lemma_key_pair(k);
                        model::lemma_key_order(x, p);
                        assert forall|l: u64| occ_prefix(seqs, a as int, j as int + 1, x).contains(l)
                            == (occ_prefix(seqs, a as int, j as int, x).contains(l) || (l == loc && x == p)) by {
                            let (i2, s2) = model::key_pair(l);
                            model::lemma_key_pair(l);
                            model::lemma_key_order((i2, s2), (a as u32, left_slot));
                            if occurs_at(seqs, l, x) && i2 as int == a as int {
                                ms.lemma_live_position(s2 as int);
                            }
                        }
                        if x == p {
                            assert(occ_prefix(seqs, a as int, j as int + 1, x)
                                =~= occ_prefix(seqs, a as int, j as int, x).insert(loc));
                        } else {
                            assert(occ_prefix(seqs, a as int, j as int + 1, x)
                                =~= occ_prefix(seqs, a as int, j as int, x));
                        }
                    }
                }
                j = j + 1;
            }
            proof {
                assert forall|k: u64| #[trigger] info_count(self.token_id_pair_info@, k)
                    == model::total_count(ws.take(a as int + 1), model::key_pair(k)) as int by {
                    let x = model::key_pair(k);
                    model::lemma_num_adj_upto_tail(t, x, j as int);
                    model::lemma_total_count_take(ws, a as int, x);
                }
                assert forall|k: u64| #[trigger] info_occ(self.token_id_pair_info@, k)
                    == occ_prefix(seqs, a as int + 1, 0, model::key_pair(k)) by {
                    let x = model::key_pair(k);
                    assert forall|l: u64| occ_prefix(seqs, a as int + 1, 0, x).contains(l)
                        == occ_prefix(seqs, a as int, j as int, x).contains(l) by {
                        let (i2, s2) = model::key_pair(l);
                        if occurs_at(seqs, l, x) && i2 as int == a as int {
                            ms.lemma_live_position(s2 as int);
                            let kk = ms.position(s2);
                            ms.lemma_pair_at_position(kk);
                        }
                    }
                    assert(occ_prefix(seqs, a as int + 1, 0, x) =~= occ_prefix(seqs, a as int, j as int, x));
                }
            }
            a = a + 1;
        }
        proof {
            assert(ws.take(a as int) =~= ws);
            assert forall|k: u64| #[trigger] info_occ(self.token_id_pair_info@, k) == occ_set(seqs, model::key_pair(k)) by {
                assert(occ_prefix(seqs, a as int, 0, model::key_pair(k)) =~= occ_set(seqs, model::key_pair(k)));
            }
            assert forall|q: (TokenId, TokenId)| #[trigger] model::total_count(ws, q) <= u32::MAX by {
                model::lemma_pair_key(q);
                assert(info_count(self.token_id_pair_info@, model::pair_key(q)) == model::total_count(ws, q) as int);
            }
        }
        Ok(())
    }

    /// Records `merged_id` as the concatenation of the pair's bytes and the merge rule.
    fn register_merged_token(&mut self, merged_id: TokenId, token_id_pair: (TokenId, TokenId))
        requires
            old(self).vocab@.contains_key(token_id_pair.0),
            old(self).vocab@.contains_key(token_id_pair.1),
        ensures
            vocab_view(final(self).vocab@) == vocab_view(old(self).vocab@).insert(merged_id,
                old(self).vocab@[token_id_pair.0]@ + old(self).vocab@[token_id_pair.1]@),
            merges_view(final(self).merge_map@) == merges_view(old(self).merge_map@).insert(token_id_pair, merged_id),
            final(self).split_pattern_source == old(self).split_pattern_source,
            final(self).special_split_pattern_source == old(self).special_split_pattern_source,
            final(self).special_tokens == old(self).special_tokens,
            final(self).merge_sequences == old(self).merge_sequences,
            final(self).count_to_token_id_pairs == old(self).count_to_token_id_pairs,
            final(self).max_token_id_pair_count == old(self).max_token_id_pair_count,
            final(self).token_id_pair_info == old(self).token_id_pair_info,
    {
        let left_bytes = self.vocab.get(&token_id_pair.0).unwrap();
        let right_bytes = self.vocab.get(&token_id_pair.1).unwrap();
        let mut new_bytes: Vec<u8> = Vec::new();
        new_bytes.extend_from_slice(left_bytes.as_slice());
        new_bytes.extend_from_slice(right_bytes.as_slice());
        let ghost expected = old(self).vocab@[token_id_pair.0]@ + old(self).vocab@[token_id_pair.1]@;
        proof {
            assert(new_bytes@ =~= expected);
        }
        self.vocab.insert(merged_id, new_bytes);
        let key = pack_pair(token_id_pair.0, token_id_pair.1);
        self.merge_map.insert(key, merged_id);
        proof {
            assert(vocab_view(self.vocab@) =~= vocab_view(old(self).vocab@).insert(merged_id, expected));
            assert forall|p: (TokenId, TokenId)| #![auto] merges_view(self.merge_map@).contains_key(p)
                == merges_view(old(self).merge_map@).insert(token_id_pair, merged_id).contains_key(p) by {
                model::lemma_key_order(p, token_id_pair);
            }
            assert forall|p: (TokenId, TokenId)| #![auto] merges_view(self.merge_map@).contains_key(p) implies
                merges_view(self.merge_map@)[p] == merges_view(old(self).merge_map@).insert(token_id_pair, merged_id)[p] by {
                model::lemma_key_order(p, token_id_pair);
            }
            assert(merges_view(self.merge_map@) =~= merges_view(old(self).merge_map@).insert(token_id_pair, merged_id));
        }
    }
}

} // verus!
