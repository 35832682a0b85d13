//! Frequency-indexed merge-candidate buckets, linked in descending frequency
//! order so that the highest non-empty bucket is always at the head.

use vstd::prelude::*;
use std::collections::{HashMap, HashSet};
use crate::model::{self, pack_pair, unpack_pair};
use crate::ordered::min_item;
use crate::types::TokenIdPair;

verus! {

broadcast use vstd::std_specs::hash::group_hash_axioms;

/// One bucket: the pairs that currently have `count` occurrences.
pub struct MergeCandidateBucketNode {
    /// Occurrence count shared by the pairs of this bucket.
    pub count: u32,
    /// Packed pairs in this bucket.
    pub token_id_pairs: HashSet<u64>,
    /// Bucket with the next higher count.
    pub prev: Option<usize>,
    /// Bucket with the next lower count.
    pub next: Option<usize>,
}

/// Frequency-indexed merge-candidate buckets linked in descending frequency order.
///
/// The highest-frequency non-empty bucket is tracked explicitly for O(1) access.
pub struct MergeCandidateBuckets {
    pub(crate) nodes: Vec<Option<MergeCandidateBucketNode>>,
    pub(crate) free_nodes: Vec<usize>,
    pub(crate) count_to_node: HashMap<u32, usize>,
    pub(crate) head: Option<usize>,
    /// Live bucket slots from the head, in list order.
    pub(crate) order: Ghost<Seq<usize>>,
}

/// The pairs of a packed set.
pub open spec fn pair_set(s: Set<u64>) -> Set<TokenIdPair> {
    Set::new(|p: TokenIdPair| s.contains(model::pair_key(p)))
}

/// The buckets after `p` leaves the bucket of count `c` (none when `c` is 0);
/// a bucket left empty disappears.
pub open spec fn bucket_removed(b: Map<u32, Set<TokenIdPair>>, c: u32, p: TokenIdPair) -> Map<u32, Set<TokenIdPair>> {
    if c == 0 {
        b
    } else if b[c].remove(p) == Set::<TokenIdPair>::empty() {
        b.remove(c)
    } else {
        b.insert(c, b[c].remove(p))
    }
}

/// The buckets after `p` joins the bucket of count `c` (none when `c` is 0).
pub open spec fn bucket_added(b: Map<u32, Set<TokenIdPair>>, c: u32, p: TokenIdPair) -> Map<u32, Set<TokenIdPair>> {
    if c == 0 {
        b
    } else {
        b.insert(c, (if b.contains_key(c) { b[c] } else { Set::<TokenIdPair>::empty() }).insert(p))
    }
}

/// Packed keys and their pairs correspond one to one.
proof fn lemma_pair_set(s: Set<u64>, key: u64, p: TokenIdPair)
    requires
        key == model::pair_key(p),
    ensures
        pair_set(s.insert(key)) == pair_set(s).insert(p),
        pair_set(s.remove(key)) == pair_set(s).remove(p),
        (pair_set(s) == Set::<TokenIdPair>::empty()) == (s == Set::<u64>::empty()),
{
    assert forall|q: TokenIdPair| pair_set(s.insert(key)).contains(q) == pair_set(s).insert(p).contains(q) by {
        model::lemma_key_order(q, p);
    }
    assert(pair_set(s.insert(key)) =~= pair_set(s).insert(p));
    assert forall|q: TokenIdPair| pair_set(s.remove(key)).contains(q) == pair_set(s).remove(p).contains(q) by {
        model::lemma_key_order(q, p);
    }
    assert(pair_set(s.remove(key)) =~= pair_set(s).remove(p));
    if pair_set(s) == Set::<TokenIdPair>::empty() {
        assert forall|k: u64| !s.contains(k) by {
            model::lemma_key_pair(k);
            assert(!pair_set(s).contains(model::key_pair(k)));
        }
        assert(s =~= Set::<u64>::empty());
    }
    if s == Set::<u64>::empty() {
        assert(pair_set(s) =~= Set::<TokenIdPair>::empty());
    }
}

/// `o` with `x` inserted at position `pos`.
pub open spec fn inserted(o: Seq<usize>, pos: int, x: usize) -> Seq<usize> {
    Seq::new(o.len() + 1, |j: int| if j < pos { o[j] } else if j == pos { x } else { o[j - 1] })
}

/// The links the bucket at list position `j` must carry.
pub open spec fn bucket_links(order: Seq<usize>, j: int, node: MergeCandidateBucketNode) -> bool {
    &&& node.prev == (if j == 0 { None } else { Some(order[j - 1]) })
    &&& node.next == (if j + 1 == order.len() { None } else { Some(order[j + 1]) })
}

impl MergeCandidateBuckets {
    /// Whether slot `i` holds a bucket.
    pub closed spec fn live(self, i: int) -> bool {
        0 <= i < self.nodes@.len() && self.nodes@[i] is Some
    }

    /// The bucket in slot `i`.
    pub closed spec fn node(self, i: int) -> MergeCandidateBucketNode {
        self.nodes@[i].unwrap()
    }

    /// Structure of the list, with the buckets' pair sets left aside.
    pub closed spec fn shape_wf(self) -> bool {
        let o = self.order@;
        &&& forall|j: int| 0 <= j < o.len() ==> #[trigger] self.live(o[j] as int)
        &&& forall|i: int| #[trigger] self.live(i) ==> o.contains(i as usize)
        &&& forall|j: int, k: int| 0 <= j < k < o.len() ==> self.node(o[j] as int).count > self.node(o[k] as int).count
        &&& self.head == (if o.len() == 0 { None } else { Some(o[0]) })
        &&& forall|j: int| 0 <= j < o.len() ==> bucket_links(o, j, #[trigger] self.node(o[j] as int))
        &&& forall|j: int| 0 <= j < o.len() ==> #[trigger] self.count_to_node@.contains_key(self.node(o[j] as int).count)
                && self.count_to_node@[self.node(o[j] as int).count] == o[j]
        &&& forall|c: u32| #[trigger] self.count_to_node@.contains_key(c) ==>
                self.live(self.count_to_node@[c] as int) && self.node(self.count_to_node@[c] as int).count == c
        &&& forall|x: int| 0 <= x < self.free_nodes@.len() ==> #[trigger] self.free_nodes@[x] < self.nodes@.len()
                && self.nodes@[self.free_nodes@[x] as int] is None
        &&& self.free_nodes@.no_duplicates()
        &&& forall|j: int| 0 <= j < o.len() ==> #[trigger] self.node(o[j] as int).count > 0
    }

    /// Well-formedness: the list is sound and no bucket is empty.
    pub closed spec fn wf(self) -> bool {
        &&& self.shape_wf()
        &&& forall|j: int| 0 <= j < self.order@.len() ==> !(#[trigger] self.node(self.order@[j] as int)).token_id_pairs@.is_empty()
    }

    /// No bucket is at the head of the list.
    pub closed spec fn no_head(self) -> bool {
        self.head is None
    }

    /// The buckets: each count with the pairs that have it.
    pub closed spec fn buckets(self) -> Map<u32, Set<TokenIdPair>> {
        Map::new(|c: u32| self.count_to_node@.contains_key(c),
            |c: u32| pair_set(self.node(self.count_to_node@[c] as int).token_id_pairs@))
    }

    /// Removes every bucket.
    pub fn clear(&mut self)
        ensures
            final(self).wf(),
            final(self).buckets() == Map::<u32, Set<TokenIdPair>>::empty(),
    {
        self.nodes.clear();
        self.free_nodes.clear();
        self.count_to_node.clear();
        self.head = None;
        let ghost o1 = Seq::<usize>::empty();
        self.order = Ghost(o1);
        proof {
            assert(self.buckets() =~= Map::<u32, Set<TokenIdPair>>::empty());
        }
    }

    /// Whether no bucket exists.
    pub fn is_empty(&self) -> (r: bool)
        requires
            self.wf(),
        ensures
            r == (self.buckets() == Map::<u32, Set<TokenIdPair>>::empty()),
            r == self.no_head(),
    {
        let r = self.head.is_none();
        proof {
            if r {
                assert forall|c: u32| !self.count_to_node@.contains_key(c) by {
                    if self.count_to_node@.contains_key(c) {
                        assert(self.live(self.count_to_node@[c] as int));
                        assert(self.order@.contains(self.count_to_node@[c]));
                    }
                }
                assert(self.buckets() =~= Map::<u32, Set<TokenIdPair>>::empty());
            } else {
                let o = self.order@;
                assert(self.live(o[0] as int));
                assert(self.count_to_node@.contains_key(self.node(o[0] as int).count));
                assert(self.buckets().contains_key(self.node(o[0] as int).count));
            }
        }
        r
    }

    /// The smallest pair of the highest bucket, if any bucket exists.
    pub fn best_token_id_pair(&self) -> (r: Option<TokenIdPair>)
        requires
            self.wf(),
        ensures
            r is None <==> self.buckets() == Map::<u32, Set<TokenIdPair>>::empty(),
            r matches Some(p) ==> exists|c: u32| {
                &&& #[trigger] self.buckets().contains_key(c)
                &&& self.buckets()[c].contains(p)
                &&& forall|c2: u32| #[trigger] self.buckets().contains_key(c2) ==> c2 <= c
                &&& forall|q: TokenIdPair| #[trigger] self.buckets()[c].contains(q) ==> !model::pair_less(q, p)
            },
    {
        let empty = self.is_empty();
        match self.head {
            None => None,
            Some(head) => {
                let ghost o = self.order@;
                proof {
                    assert(self.live(o[0] as int));
                }
                let r = match &self.nodes[head] {
                    Some(node) => match min_item(&node.token_id_pairs) {
                        Some(k) => Some(unpack_pair(k)),
                        None => None,
                    },
                    None => None,
                };
                proof {
                    let c = self.node(o[0] as int).count;
                    let s = self.node(o[0] as int).token_id_pairs@;
                    assert(!s.is_empty());
                    assert(exists|k: u64| s.contains(k)) by {
                        if !(exists|k: u64| s.contains(k)) {
                            assert(s =~= Set::<u64>::empty());
                        }
                    }
                    let p = r.unwrap();
                    assert(self.count_to_node@.contains_key(c));
                    assert(self.buckets().contains_key(c));
                    assert(self.buckets()[c] == pair_set(s));
                    assert(self.buckets()[c].contains(p));
                    assert forall|c2: u32| #[trigger] self.buckets().contains_key(c2) implies c2 <= c by {
                        let i = self.count_to_node@[c2];
                        assert(self.live(i as int));
                        assert(o.contains(i));
                        let j = choose|j: int| 0 <= j < o.len() && o[j] == i;
                        if j > 0 {
                            assert(self.node(o[0] as int).count > self.node(o[j] as int).count);
                        }
                    }
                    assert forall|q: TokenIdPair| #[trigger] self.buckets()[c].contains(q) implies !model::pair_less(q, p) by {
                        model::lemma_key_order(q, p);
                        model::lemma_pair_key(p);
                    }
                }
                r
            },
        }
    }

    /// Adds `token_id_pair` to the bucket for `count`.
    pub fn insert(&mut self, count: u32, token_id_pair: TokenIdPair)
        requires
            old(self).wf(),
            count > 0,
        ensures
            final(self).wf(),
            final(self).buckets() == bucket_added(old(self).buckets(), count, token_id_pair),
    {
        let key = pack_pair(token_id_pair.0, token_id_pair.1);
        let node_index = self.ensure_bucket(count);
        let ghost mid = *self;
        proof {
            assert(mid.live(node_index as int));
        }
        self.add_to_node(node_index, key);
        proof {
            let o = self.order@;
            assert forall|i: int| #[trigger] self.live(i) == mid.live(i) by {}
            assert forall|i: int| mid.live(i) implies #[trigger] self.node(i).count == mid.node(i).count
                && self.node(i).prev == mid.node(i).prev && self.node(i).next == mid.node(i).next by {
                if i != node_index {
                    assert(self.nodes@[i] == mid.nodes@[i]);
                }
            }
            assert(self.shape_wf()) by {
                assert forall|j: int| 0 <= j < o.len() implies bucket_links(o, j, #[trigger] self.node(o[j] as int)) by {
                    assert(mid.live(o[j] as int));
                    assert(bucket_links(o, j, mid.node(o[j] as int)));
                }
                assert forall|x: int| 0 <= x < self.free_nodes@.len() implies #[trigger] self.free_nodes@[x] < self.nodes@.len()
                    && self.nodes@[self.free_nodes@[x] as int] is None by {
                    assert(mid.nodes@[mid.free_nodes@[x] as int] is None);
                }
            }
            assert forall|j: int| 0 <= j < o.len() implies !(#[trigger] self.node(o[j] as int)).token_id_pairs@.is_empty() by {
                if o[j] != node_index {
                    assert(mid.live(o[j] as int));
                    assert(old(self).live(o[j] as int));
                    assert(self.nodes@[o[j] as int] == mid.nodes@[o[j] as int]);
                    assert(old(self).order@.contains(o[j]));
                    let jj = choose|jj: int| 0 <= jj < old(self).order@.len() && old(self).order@[jj] == o[j];
                    assert(!old(self).node(old(self).order@[jj] as int).token_id_pairs@.is_empty());
                } else {
                    assert(self.node(o[j] as int).token_id_pairs@.contains(key));
                }
            }
            let old_set = if old(self).buckets().contains_key(count) { old(self).buckets()[count] } else { Set::<TokenIdPair>::empty() };
            lemma_pair_set(mid.node(node_index as int).token_id_pairs@, key, token_id_pair);
            if !old(self).count_to_node@.contains_key(count) {
                assert(mid.node(node_index as int).token_id_pairs@ =~= Set::<u64>::empty());
                assert(pair_set(Set::<u64>::empty()) =~= Set::<TokenIdPair>::empty());
            }
            assert forall|c: u32| #[trigger] self.buckets().contains_key(c) == bucket_added(old(self).buckets(), count, token_id_pair).contains_key(c) by {}
            assert forall|c: u32| #[trigger] self.buckets().contains_key(c) implies
                self.buckets()[c] == bucket_added(old(self).buckets(), count, token_id_pair)[c] by {
                if c != count {
                    let i = self.count_to_node@[c];
                    assert(old(self).count_to_node@.contains_key(c));
                    assert(old(self).live(i as int));
                    assert(i != node_index);
                    assert(self.nodes@[i as int] == mid.nodes@[i as int]);
                }
            }
            assert(self.buckets() =~= bucket_added(old(self).buckets(), count, token_id_pair));
        }
    }

    /// Moves `token_id_pair` from the bucket for `old_count` (when positive) to
    /// the bucket for `new_count` (when positive).
    pub fn update_token_id_pair(&mut self, token_id_pair: TokenIdPair, old_count: u32, new_count: u32)
        requires
            old(self).wf(),
            old_count > 0 ==> old(self).buckets().contains_key(old_count),
        ensures
            final(self).wf(),
            final(self).buckets() == bucket_added(bucket_removed(old(self).buckets(), old_count, token_id_pair),
                new_count, token_id_pair),
    {
        if old_count > 0 {
            self.remove_from_bucket(old_count, token_id_pair);
        }
        if new_count > 0 {
            self.insert(new_count, token_id_pair);
        }
    }

    /// Takes `token_id_pair` out of the bucket for `count`, unlinking the
    /// bucket when it becomes empty.
    #[verifier::spinoff_prover]
    fn remove_from_bucket(&mut self, count: u32, token_id_pair: TokenIdPair)
        requires
            old(self).wf(),
            old(self).buckets().contains_key(count),
        ensures
            final(self).wf(),
            final(self).buckets() == bucket_removed(old(self).buckets(), count, token_id_pair),
    {
        let key = pack_pair(token_id_pair.0, token_id_pair.1);
        let node_index = match self.count_to_node.get(&count) {
            Some(i) => *i,
            None => {
                return;
            },
        };
        let ghost o = self.order@;
        let ghost pos: int = choose|j: int| 0 <= j < o.len() && o[j] == node_index;
        proof {
            assert(self.live(node_index as int));
            assert(o.contains(node_index));
            assert(0 <= pos < o.len() && o[pos] == node_index);
            assert(self.node(o[pos] as int).count > 0);
            lemma_pair_set(self.node(node_index as int).token_id_pairs@, key, token_id_pair);
        }
        let became_empty = self.remove_from_node(node_index, key);
        let ghost mid = *self;
        if !became_empty {
            proof {
                assert forall|i: int| #[trigger] self.live(i) == old(self).live(i) by {}
                assert forall|i: int| old(self).live(i) && i != node_index implies #[trigger] self.nodes@[i] == old(self).nodes@[i] by {}
                assert(self.shape_wf()) by {
                    assert forall|j: int| 0 <= j < o.len() implies bucket_links(o, j, #[trigger] self.node(o[j] as int)) by {
                        assert(old(self).live(o[j] as int));
                        assert(bucket_links(o, j, old(self).node(o[j] as int)));
                    }
                    assert forall|j: int, k: int| 0 <= j < k < o.len() implies
                        self.node(o[j] as int).count > self.node(o[k] as int).count by {
                        assert(old(self).live(o[j] as int));
                        assert(old(self).live(o[k] as int));
                        assert(old(self).node(o[j] as int).count > old(self).node(o[k] as int).count);
                    }
                    assert forall|j: int| 0 <= j < o.len() implies #[trigger] self.count_to_node@.contains_key(self.node(o[j] as int).count)
                        && self.count_to_node@[self.node(o[j] as int).count] == o[j] by {
                        assert(old(self).live(o[j] as int));
                        assert(old(self).count_to_node@.contains_key(old(self).node(o[j] as int).count));
                    }
                    assert forall|c: u32| #[trigger] self.count_to_node@.contains_key(c) implies
                        self.live(self.count_to_node@[c] as int) && self.node(self.count_to_node@[c] as int).count == c by {
                        assert(old(self).live(old(self).count_to_node@[c] as int));
                    }
                    assert forall|x: int| 0 <= x < self.free_nodes@.len() implies #[trigger] self.free_nodes@[x] < self.nodes@.len()
                        && self.nodes@[self.free_nodes@[x] as int] is None by {
                        assert(old(self).nodes@[old(self).free_nodes@[x] as int] is None);
                    }
                    assert forall|j: int| 0 <= j < o.len() implies #[trigger] self.node(o[j] as int).count > 0 by {
                        assert(old(self).live(o[j] as int));
                        assert(old(self).node(o[j] as int).count > 0);
                    }
                }
                assert forall|j: int| 0 <= j < o.len() implies !(#[trigger] self.node(o[j] as int)).token_id_pairs@.is_empty() by {
                    assert(old(self).live(o[j] as int));
                    assert(!old(self).node(o[j] as int).token_id_pairs@.is_empty());
                }
                let s_old = old(self).node(node_index as int).token_id_pairs@;
                let s_new = self.node(node_index as int).token_id_pairs@;
                assert(s_new == s_old.remove(key));
                lemma_pair_set(s_new, key, token_id_pair);
                assert(s_new != Set::<u64>::empty());
                assert(pair_set(s_new) != Set::<TokenIdPair>::empty());
                assert(old(self).buckets()[count] == pair_set(s_old));
                assert(old(self).buckets()[count].remove(token_id_pair) == pair_set(s_new));
                assert forall|c: u32| #[trigger] self.buckets().contains_key(c) implies
                    self.buckets()[c] == bucket_removed(old(self).buckets(), count, token_id_pair)[c] by {
                    if c != count {
                        let i = self.count_to_node@[c];
                        assert(old(self).live(i as int));
                        assert(old(self).node(i as int).count == c);
                        assert(i != node_index);
                    }
                }
                assert(!self.node(node_index as int).token_id_pairs@.is_empty());
                assert(self.node(node_index as int).token_id_pairs@ != Set::<u64>::empty());
                assert(self.buckets() =~= bucket_removed(old(self).buckets(), count, token_id_pair));
            }
            return;
        }
        let (_, prev, next) = self.node_info(node_index);
        proof {
            assert(bucket_links(o, pos, old(self).node(o[pos] as int)));
        }
        match prev {
            Some(pv) => {
                proof {
                    assert(pv == o[pos - 1]);
                    assert(old(self).live(pv as int));
                    old(self).lemma_order_distinct();
                }
                let (_, pv_prev, _) = self.node_info(pv);
                self.set_links(pv, pv_prev, next);
            },
            None => {
                self.head = next;
            },
        }
        match next {
            Some(nx) => {
                proof {
                    assert(nx == o[pos + 1]);
                    assert(old(self).live(nx as int));
                    old(self).lemma_order_distinct();
                }
                let (_, _, nx_next) = self.node_info(nx);
                self.set_links(nx, prev, nx_next);
            },
            None => {},
        }
        self.count_to_node.remove(&count);
        self.nodes.set(node_index, None);
        self.free_nodes.push(node_index);
        let ghost o1 = o.remove(pos);
        self.order = Ghost(o1);
        proof {
            old(self).lemma_order_distinct();
            if pos > 0 {
                assert(bucket_links(o, pos - 1, old(self).node(o[pos - 1] as int)));
            }
            if pos + 1 < o.len() {
                assert(bucket_links(o, pos + 1, old(self).node(o[pos + 1] as int)));
            }
            if o.len() > 1 {
                if pos == 0 {
                    assert(o1[0] == o[1]);
                } else {
                    assert(o1[0] == o[0]);
                }
            }
            assert(self.unlinked(*old(self), pos, node_index, count));
            self.lemma_shape_after_unlink(*old(self), pos, node_index, count);
            self.lemma_unlink_slots(*old(self), pos, node_index, count);
            assert forall|j: int| 0 <= j < o1.len() implies !(#[trigger] self.node(o1[j] as int)).token_id_pairs@.is_empty() by {
                let oj = if j < pos { j } else { j + 1 };
                assert(o1[j] == o[oj]);
                assert(old(self).live(o[oj] as int));
                assert(!old(self).node(o[oj] as int).token_id_pairs@.is_empty());
            }
            assert forall|c: u32| #[trigger] self.buckets().contains_key(c) implies
                self.buckets()[c] == bucket_removed(old(self).buckets(), count, token_id_pair)[c] by {
                let i = self.count_to_node@[c];
                assert(old(self).live(i as int));
                assert(i != node_index);
            }
            let s_old = old(self).node(node_index as int).token_id_pairs@;
            let s_new = mid.node(node_index as int).token_id_pairs@;
            assert(s_new == s_old.remove(key));
            assert(s_new =~= Set::<u64>::empty());
            lemma_pair_set(s_new, key, token_id_pair);
            assert(old(self).buckets()[count] == pair_set(s_old));
            assert(old(self).buckets()[count].remove(token_id_pair) == Set::<TokenIdPair>::empty());
            assert(bucket_removed(old(self).buckets(), count, token_id_pair) == old(self).buckets().remove(count));
            assert(self.buckets() =~= bucket_removed(old(self).buckets(), count, token_id_pair));
        }
    }

    /// Puts a new empty bucket for `count` into a free slot, or a new one.
    fn allocate_node(&mut self, count: u32) -> (r: usize)
        requires
            forall|x: int| 0 <= x < old(self).free_nodes@.len() ==> #[trigger] old(self).free_nodes@[x] < old(self).nodes@.len()
                && old(self).nodes@[old(self).free_nodes@[x] as int] is None,
            old(self).free_nodes@.no_duplicates(),
        ensures
            (r as int) < final(self).nodes@.len(),
            (r as int) < old(self).nodes@.len() ==> old(self).nodes@[r as int] is None,
            final(self).nodes@.len() == old(self).nodes@.len() || (final(self).nodes@.len() == old(self).nodes@.len() + 1
                && r == old(self).nodes@.len()),
            final(self).nodes@[r as int] matches Some(n) && n.count == count && n.token_id_pairs@.is_empty()
                && n.prev is None && n.next is None,
            forall|i: int| 0 <= i < old(self).nodes@.len() && i != r ==> #[trigger] final(self).nodes@[i] == old(self).nodes@[i],
            forall|x: int| 0 <= x < final(self).free_nodes@.len() ==> #[trigger] final(self).free_nodes@[x] < final(self).nodes@.len()
                && final(self).nodes@[final(self).free_nodes@[x] as int] is None,
            final(self).free_nodes@.no_duplicates(),
            final(self).count_to_node == old(self).count_to_node,
            final(self).head == old(self).head,
            final(self).order == old(self).order,
    {
        let node = MergeCandidateBucketNode { count, token_id_pairs: HashSet::new(), prev: None, next: None };
        match self.free_nodes.pop() {
            Some(index) => {
                proof {
                    let f = old(self).free_nodes@;
                    assert(f[f.len() - 1] == index);
                    assert(self.free_nodes@ =~= f.drop_last());
                    assert forall|x: int| 0 <= x < self.free_nodes@.len() implies #[trigger] self.free_nodes@[x] != index by {
                        assert(f[x] == self.free_nodes@[x]);
                    }
                }
                self.nodes.set(index, Some(node));
                proof {
                    let f = old(self).free_nodes@;
                    assert forall|x: int| 0 <= x < self.free_nodes@.len() implies #[trigger] self.free_nodes@[x] < self.nodes@.len()
                        && self.nodes@[self.free_nodes@[x] as int] is None by {
                        assert(f[x] == self.free_nodes@[x]);
                    }
                    assert(self.free_nodes@.no_duplicates()) by {
                        assert forall|a: int, b: int| 0 <= a < self.free_nodes@.len() && 0 <= b < self.free_nodes@.len() && a != b
                            implies self.free_nodes@[a] != self.free_nodes@[b] by {
                            assert(f[a] == self.free_nodes@[a] && f[b] == self.free_nodes@[b]);
                        }
                    }
                }
                index
            },
            None => {
                self.nodes.push(Some(node));
                self.nodes.len() - 1
            },
        }
    }

    /// Count and links of the bucket in slot `i`.
    fn node_info(&self, i: usize) -> (r: (u32, Option<usize>, Option<usize>))
        requires
            self.live(i as int),
        ensures
            r == (self.node(i as int).count, self.node(i as int).prev, self.node(i as int).next),
    {
        match &self.nodes[i] {
            Some(node) => (node.count, node.prev, node.next),
            None => (0, None, None),
        }
    }

    /// Returns the slot of the bucket for `count`, creating an empty one at its
    /// place in descending order when none exists yet.
    #[verifier::spinoff_prover]
    #[verifier::rlimit(50)]
    fn ensure_bucket(&mut self, count: u32) -> (r: usize)
        requires
            old(self).wf(),
            count > 0,
        ensures
            final(self).shape_wf(),
            final(self).live(r as int),
            final(self).node(r as int).count == count,
            final(self).count_to_node@ == old(self).count_to_node@.insert(count, r),
            old(self).count_to_node@.contains_key(count) ==> r == old(self).count_to_node@[count] && *final(self) == *old(self),
            !old(self).count_to_node@.contains_key(count) ==> final(self).node(r as int).token_id_pairs@.is_empty()
                && !old(self).live(r as int),
            forall|i: int| #[trigger] old(self).live(i) ==> final(self).live(i)
                && final(self).node(i).token_id_pairs == old(self).node(i).token_id_pairs
                && final(self).node(i).count == old(self).node(i).count,
            forall|i: int| #[trigger] final(self).live(i) ==> old(self).live(i) || i == r,
    {
        match self.count_to_node.get(&count) {
            Some(existing) => {
                proof {
                    assert(self.count_to_node@.insert(count, *existing) =~= self.count_to_node@);
                }
                return *existing;
            },
            None => {},
        }
        let ghost o = self.order@;
        let ghost old_nodes = self.nodes@;
        proof {
            assert forall|j: int| 0 <= j < o.len() implies #[trigger] self.node(o[j] as int).count != count by {
                assert(self.count_to_node@.contains_key(self.node(o[j] as int).count));
            }
        }
        let new_index = self.allocate_node(count);
        self.count_to_node.insert(count, new_index);
        proof {
            assert(!o.contains(new_index)) by {
                if o.contains(new_index) {
                    let j = choose|j: int| 0 <= j < o.len() && o[j] == new_index;
                    assert(old(self).live(o[j] as int));
                }
            }
        }
        match self.head {
            None => {
                self.head = Some(new_index);
                let ghost o1 = seq![new_index];
                self.order = Ghost(o1);
                proof {
                    assert(o.len() == 0);
                    assert forall|i: int| #[trigger] self.live(i) implies self.order@.contains(i as usize) by {
                        if i != new_index {
                            if i < old_nodes.len() {
                                assert(old_nodes[i] == self.nodes@[i]);
                                assert(old(self).live(i));
                                assert(o.contains(i as usize));
                            }
                        }
                        assert(self.order@[0] == new_index);
                    }
                    assert forall|c: u32| #[trigger] self.count_to_node@.contains_key(c) implies
                        self.live(self.count_to_node@[c] as int) && self.node(self.count_to_node@[c] as int).count == c by {
                        if c != count {
                            assert(old(self).count_to_node@.contains_key(c));
                            assert(old(self).live(old(self).count_to_node@[c] as int));
                        }
                    }
                }
                return new_index;
            },
            Some(h) => {
                proof {
                    assert(o[0] == h);
                    assert(old(self).live(h as int));
                    assert(h != new_index);
                    assert(self.nodes@[h as int] == old(self).nodes@[h as int]);
                }
                let (head_count, _, head_next) = self.node_info(h);
                if head_count < count {
                    self.set_links(h, Some(new_index), head_next);
                    self.set_links(new_index, None, Some(h));
                    self.head = Some(new_index);
                    let ghost o1 = inserted(o, 0, new_index);
                    self.order = Ghost(o1);
                    proof {
                        self.lemma_shape_after_link(*old(self), o, 0, new_index, count);
                    }
                    return new_index;
                }
                let mut current = h;
                let ghost mut k: int = 0;
                loop
                    invariant
                        0 <= k < o.len(),
                        o[k] == current,
                        old(self).live(current as int),
                        old(self).node(current as int).count > count,
                        self.nodes@.len() >= old(self).nodes@.len(),
                        forall|i: int| 0 <= i < old(self).nodes@.len() && i != new_index ==> #[trigger] self.nodes@[i] == old(self).nodes@[i],
                        (new_index as int) < self.nodes@.len(),
                        old(self).shape_wf(),
                        o == old(self).order@,
                        !o.contains(new_index),
                        forall|j: int| 0 <= j < o.len() ==> #[trigger] old(self).node(o[j] as int).count != count,
                    ensures
                        0 <= k < o.len(),
                        o[k] == current,
                        old(self).live(current as int),
                        old(self).node(current as int).count > count,
                        k + 1 == o.len() || old(self).node(o[k + 1] as int).count < count,
                    decreases o.len() - k,
                {
                    proof {
                        assert(bucket_links(o, k, old(self).node(o[k] as int)));
                        assert(self.nodes@[current as int] == old(self).nodes@[current as int]);
                    }
                    let (_, _, next) = self.node_info(current);
                    match next {
                        None => {
                            proof {
                                assert(k + 1 == o.len());
                            }
                            break;
                        },
                        Some(nx) => {
                            proof {
                                assert(nx == o[k + 1]);
                                assert(old(self).live(nx as int));
                                assert(self.nodes@[nx as int] == old(self).nodes@[nx as int]);
                            }
                            let (next_count, _, _) = self.node_info(nx);
                            if next_count < count {
                                break;
                            }
                            proof {
                                assert(old(self).node(o[k + 1] as int).count != count);
                            }
                            current = nx;
                            proof {
                                k = k + 1;
                            }
                        },
                    }
                }
                let (_, current_prev, next) = self.node_info(current);
                proof {
                    assert(bucket_links(o, k, old(self).node(o[k] as int)));
                }
                self.set_links(new_index, Some(current), next);
                self.set_links(current, current_prev, Some(new_index));
                match next {
                    Some(nx) => {
                        proof {
                            assert(nx == o[k + 1]);
                            assert(old(self).live(nx as int));
                        }
                        let (_, _, nx_next) = self.node_info(nx);
                        self.set_links(nx, Some(new_index), nx_next);
                    },
                    None => {},
                }
                let ghost o1 = inserted(o, k + 1, new_index);
                self.order = Ghost(o1);
                proof {
                    self.lemma_shape_after_link(*old(self), o, k + 1, new_index, count);
                }
                new_index
            },
        }
    }

    /// Linking a new bucket for `count` at list position `pos` keeps the list sound.
    #[verifier::spinoff_prover]
    #[verifier::rlimit(80)]
    proof fn lemma_shape_after_link(self, old_b: Self, o: Seq<usize>, pos: int, new_index: usize, count: u32)
        requires
            old_b.shape_wf(),
            o == old_b.order@,
            0 <= pos <= o.len(),
            !o.contains(new_index),
            !old_b.live(new_index as int),
            count > 0,
            !old_b.count_to_node@.contains_key(count),
            pos > 0 ==> old_b.node(o[pos - 1] as int).count > count,
            pos < o.len() ==> old_b.node(o[pos] as int).count < count,
            self.order@ == inserted(o, pos, new_index),
            self.head == Some(self.order@[0]),
            (new_index as int) < self.nodes@.len(),
            self.nodes@.len() == old_b.nodes@.len() || (self.nodes@.len() == old_b.nodes@.len() + 1
                && new_index == old_b.nodes@.len()),
            self.nodes@[new_index as int] matches Some(n) && n.count == count
                && n.prev == (if pos == 0 { None } else { Some(o[pos - 1]) })
                && n.next == (if pos == o.len() { None } else { Some(o[pos]) }),
            pos > 0 ==> self.nodes@[o[pos - 1] as int] == Some(MergeCandidateBucketNode {
                next: Some(new_index), ..old_b.node(o[pos - 1] as int) }),
            pos < o.len() ==> self.nodes@[o[pos] as int] == Some(MergeCandidateBucketNode {
                prev: Some(new_index), ..old_b.node(o[pos] as int) }),
            forall|i: int| 0 <= i < old_b.nodes@.len() && i != new_index && (pos == 0 || i != o[pos - 1])
                && (pos == o.len() || i != o[pos]) ==> #[trigger] self.nodes@[i] == old_b.nodes@[i],
            self.count_to_node@ == old_b.count_to_node@.insert(count, new_index),
            forall|x: int| 0 <= x < self.free_nodes@.len() ==> #[trigger] self.free_nodes@[x] < self.nodes@.len()
                && self.nodes@[self.free_nodes@[x] as int] is None,
            self.free_nodes@.no_duplicates(),
        ensures
            self.shape_wf(),
    {
        let o2 = self.order@;
        assert(o2.len() == o.len() + 1);
        // every old bucket keeps its count and its live slot
        assert forall|i: int| #[trigger] old_b.live(i) implies self.live(i) && self.node(i).count == old_b.node(i).count by {
            assert(o.contains(i as usize));
            assert(i != new_index);
        }
        assert forall|j: int| 0 <= j < o2.len() implies #[trigger] self.live(o2[j] as int) by {
            if j != pos {
                let oj = if j < pos { j } else { j - 1 };
                assert(old_b.live(o[oj] as int));
            }
        }
        assert forall|i: int| #[trigger] self.live(i) implies o2.contains(i as usize) by {
            if i == new_index {
                assert(o2[pos] == new_index);
            } else {
                if i < old_b.nodes@.len() {
                    if (pos > 0 && i == o[pos - 1]) || (pos < o.len() && i == o[pos]) {
                        assert(old_b.live(i));
                    } else {
                        assert(self.nodes@[i] == old_b.nodes@[i]);
                    }
                    assert(old_b.live(i));
                    assert(o.contains(i as usize));
                    let j = choose|j: int| 0 <= j < o.len() && o[j] == i as usize;
                    assert(o2 == inserted(o, pos, new_index));
                    if j < pos {
                        assert(inserted(o, pos, new_index)[j] == o[j]);
                        assert(o2[j] == i as usize);
                    } else {
                        assert(inserted(o, pos, new_index)[j + 1] == o[j]);
                        assert(o2[j + 1] == i as usize);
                    }
                }
            }
        }
        assert forall|j: int, k: int| 0 <= j < k < o2.len() implies
            self.node(o2[j] as int).count > self.node(o2[k] as int).count by {
            let cj = self.node(o2[j] as int).count;
            let ck = self.node(o2[k] as int).count;
            if j == pos {
                let ok = k - 1;
                assert(old_b.live(o[ok] as int));
                if ok > pos {
                    assert(old_b.node(o[pos] as int).count > old_b.node(o[ok] as int).count);
                }
            } else if k == pos {
                assert(old_b.live(o[j] as int));
                if j < pos - 1 {
                    assert(old_b.node(o[j] as int).count > old_b.node(o[pos - 1] as int).count);
                }
            } else {
                let oj = if j < pos { j } else { j - 1 };
                let ok = if k < pos { k } else { k - 1 };
                assert(old_b.live(o[oj] as int));
                assert(old_b.live(o[ok] as int));
                assert(old_b.node(o[oj] as int).count > old_b.node(o[ok] as int).count);
            }
        }
        assert forall|j: int| 0 <= j < o2.len() implies bucket_links(o2, j, #[trigger] self.node(o2[j] as int)) by {
            if j != pos {
                let oj = if j < pos { j } else { j - 1 };
                assert(old_b.live(o[oj] as int));
                assert(bucket_links(o, oj, old_b.node(o[oj] as int)));
            }
        }
        assert forall|j: int| 0 <= j < o2.len() implies #[trigger] self.count_to_node@.contains_key(self.node(o2[j] as int).count)
            && self.count_to_node@[self.node(o2[j] as int).count] == o2[j] by {
            if j != pos {
                let oj = if j < pos { j } else { j - 1 };
                assert(old_b.live(o[oj] as int));
                assert(old_b.count_to_node@.contains_key(old_b.node(o[oj] as int).count));
            }
        }
        assert forall|c: u32| #[trigger] self.count_to_node@.contains_key(c) implies
            self.live(self.count_to_node@[c] as int) && self.node(self.count_to_node@[c] as int).count == c by {
            if c != count {
                assert(old_b.count_to_node@.contains_key(c));
                assert(old_b.live(old_b.count_to_node@[c] as int));
            }
        }
        assert forall|j: int| 0 <= j < o2.len() implies #[trigger] self.node(o2[j] as int).count > 0 by {
            if j != pos {
                let oj = if j < pos { j } else { j - 1 };
                assert(old_b.live(o[oj] as int));
                assert(old_b.node(o[oj] as int).count > 0);
            }
        }
    }

    /// `self` is `old_b` with the bucket at list position `pos` (slot `idx`,
    /// count `count`) unlinked and its slot freed.
    pub closed spec fn unlinked(self, old_b: Self, pos: int, idx: usize, count: u32) -> bool {
        let o = old_b.order@;
        &&& old_b.shape_wf()
        &&& 0 <= pos < o.len()
        &&& o[pos] == idx
        &&& old_b.node(idx as int).count == count
        &&& self.order@ == o.remove(pos)
        &&& self.head == (if o.len() == 1 { None } else { Some(self.order@[0]) })
        &&& self.nodes@.len() == old_b.nodes@.len()
        &&& self.nodes@[idx as int] is None
        &&& pos > 0 ==> self.nodes@[o[pos - 1] as int] == Some(MergeCandidateBucketNode {
                next: (if pos + 1 == o.len() { None } else { Some(o[pos + 1]) }), ..old_b.node(o[pos - 1] as int) })
        &&& pos + 1 < o.len() ==> self.nodes@[o[pos + 1] as int] == Some(MergeCandidateBucketNode {
                prev: (if pos == 0 { None } else { Some(o[pos - 1]) }), ..old_b.node(o[pos + 1] as int) })
        &&& forall|i: int| 0 <= i < old_b.nodes@.len() && i != idx && (pos == 0 || i != o[pos - 1])
                && (pos + 1 == o.len() || i != o[pos + 1]) ==> #[trigger] self.nodes@[i] == old_b.nodes@[i]
        &&& self.count_to_node@ == old_b.count_to_node@.remove(count)
        &&& self.free_nodes@ == old_b.free_nodes@.push(idx)
    }

    /// The slots listed by a sound list are distinct, and so are their counts.
    proof fn lemma_order_distinct(self)
        requires
            self.shape_wf(),
        ensures
            forall|j: int, k: int| 0 <= j < self.order@.len() && 0 <= k < self.order@.len() && j != k
                ==> self.order@[j] != self.order@[k] && self.node(self.order@[j] as int).count != self.node(self.order@[k] as int).count,
    {
        let o = self.order@;
        assert forall|j: int, k: int| 0 <= j < o.len() && 0 <= k < o.len() && j != k implies
            o[j] != o[k] && self.node(o[j] as int).count != self.node(o[k] as int).count by {
            if j < k {
                assert(self.node(o[j] as int).count > self.node(o[k] as int).count);
            } else {
                assert(self.node(o[k] as int).count > self.node(o[j] as int).count);
            }
        }
    }

    /// After an unlink, every slot but the freed one keeps its liveness and count.
    proof fn lemma_unlink_slots(self, old_b: Self, pos: int, idx: usize, count: u32)
        requires
            self.unlinked(old_b, pos, idx, count),
        ensures
            forall|i: int| #[trigger] old_b.live(i) && i != idx ==> self.live(i) && self.node(i).count == old_b.node(i).count,
            forall|i: int| #[trigger] self.live(i) ==> old_b.live(i) && i != idx,
    {
        let o = old_b.order@;
        if pos > 0 {
            assert(old_b.live(o[pos - 1] as int));
        }
        if pos + 1 < o.len() {
            assert(old_b.live(o[pos + 1] as int));
        }
        assert forall|i: int| #[trigger] old_b.live(i) && i != idx implies self.live(i) && self.node(i).count == old_b.node(i).count by {
            if !(pos > 0 && i == o[pos - 1]) && !(pos + 1 < o.len() && i == o[pos + 1]) {
                assert(self.nodes@[i] == old_b.nodes@[i]);
            }
        }
        assert forall|i: int| #[trigger] self.live(i) implies old_b.live(i) && i != idx by {
            if !(pos > 0 && i == o[pos - 1]) && !(pos + 1 < o.len() && i == o[pos + 1]) {
                assert(self.nodes@[i] == old_b.nodes@[i]);
            }
        }
    }

    /// Unlinking the bucket at list position `pos` keeps the list sound.
    #[verifier::spinoff_prover]
    proof fn lemma_shape_after_unlink(self, old_b: Self, pos: int, idx: usize, count: u32)
        requires
            self.unlinked(old_b, pos, idx, count),
        ensures
            self.shape_wf(),
    {
        self.lemma_unlink_order(old_b, pos, idx, count);
        self.lemma_unlink_links(old_b, pos, idx, count);
        self.lemma_unlink_tables(old_b, pos, idx, count);
    }

    /// After an unlink the list still covers every live slot, in descending count order.
    #[verifier::spinoff_prover]
    proof fn lemma_unlink_order(self, old_b: Self, pos: int, idx: usize, count: u32)
        requires
            self.unlinked(old_b, pos, idx, count),
        ensures
            forall|j: int| 0 <= j < self.order@.len() ==> #[trigger] self.live(self.order@[j] as int),
            forall|i: int| #[trigger] self.live(i) ==> self.order@.contains(i as usize),
            forall|j: int, k: int| 0 <= j < k < self.order@.len() ==>
                self.node(self.order@[j] as int).count > self.node(self.order@[k] as int).count,
            forall|j: int| 0 <= j < self.order@.len() ==> #[trigger] self.node(self.order@[j] as int).count > 0,
    {
        let o = old_b.order@;
        let o2 = self.order@;
        old_b.lemma_order_distinct();
        self.lemma_unlink_slots(old_b, pos, idx, count);
        assert forall|j: int| 0 <= j < o2.len() implies #[trigger] o2[j] == (if j < pos { o[j] } else { o[j + 1] }) by {}
        assert forall|j: int| 0 <= j < o2.len() implies #[trigger] self.live(o2[j] as int) by {
            let oj = if j < pos { j } else { j + 1 };
            assert(o2[j] == o[oj]);
            assert(old_b.live(o[oj] as int));
        }
        assert forall|i: int| #[trigger] self.live(i) implies o2.contains(i as usize) by {
            assert(old_b.live(i));
            assert(0 <= i < old_b.nodes@.len());
            assert(old_b.nodes.len() == old_b.nodes@.len());
            assert(i as usize != idx);
            assert(o.contains(i as usize));
            let j = choose|j: int| 0 <= j < o.len() && o[j] == i as usize;
            if j < pos {
                assert(o2[j] == i as usize);
            } else {
                assert(j != pos);
                assert(o2[j - 1] == i as usize);
            }
        }
        assert forall|j: int, k: int| 0 <= j < k < o2.len() implies
            self.node(o2[j] as int).count > self.node(o2[k] as int).count by {
            let oj = if j < pos { j } else { j + 1 };
            let ok = if k < pos { k } else { k + 1 };
            assert(o2[j] == o[oj] && o2[k] == o[ok]);
            assert(old_b.live(o[oj] as int));
            assert(old_b.live(o[ok] as int));
            assert(old_b.node(o[oj] as int).count > old_b.node(o[ok] as int).count);
        }
        assert forall|j: int| 0 <= j < o2.len() implies #[trigger] self.node(o2[j] as int).count > 0 by {
            let oj = if j < pos { j } else { j + 1 };
            assert(o2[j] == o[oj]);
            assert(old_b.live(o[oj] as int));
            assert(old_b.node(o[oj] as int).count > 0);
        }
    }

    /// After an unlink every listed bucket carries the links of its new position.
    #[verifier::spinoff_prover]
    proof fn lemma_unlink_links(self, old_b: Self, pos: int, idx: usize, count: u32)
        requires
            self.unlinked(old_b, pos, idx, count),
        ensures
            forall|j: int| 0 <= j < self.order@.len() ==> bucket_links(self.order@, j, #[trigger] self.node(self.order@[j] as int)),
    {
        let o = old_b.order@;
        let o2 = self.order@;
        old_b.lemma_order_distinct();
        assert forall|j: int| 0 <= j < o2.len() implies #[trigger] o2[j] == (if j < pos { o[j] } else { o[j + 1] }) by {}
        assert forall|j: int| 0 <= j < o2.len() implies bucket_links(o2, j, #[trigger] self.node(o2[j] as int)) by {
            let oj = if j < pos { j } else { j + 1 };
            assert(o2[j] == o[oj]);
            assert(old_b.live(o[oj] as int));
            assert(bucket_links(o, oj, old_b.node(o[oj] as int)));
            assert(o[oj] != idx);
            if !(pos > 0 && oj == pos - 1) && !(pos + 1 < o.len() && oj == pos + 1) {
                if pos > 0 {
                    assert(o[oj] != o[pos - 1]);
                }
                if pos + 1 < o.len() {
                    assert(o[oj] != o[pos + 1]);
                }
                assert(self.nodes@[o[oj] as int] == old_b.nodes@[o[oj] as int]);
            }
        }
    }

    /// After an unlink the count table and the free list still match the slots.
    #[verifier::spinoff_prover]
    proof fn lemma_unlink_tables(self, old_b: Self, pos: int, idx: usize, count: u32)
        requires
            self.unlinked(old_b, pos, idx, count),
        ensures
            self.head == (if self.order@.len() == 0 { None } else { Some(self.order@[0]) }),
            forall|j: int| 0 <= j < self.order@.len() ==> #[trigger] self.count_to_node@.contains_key(self.node(self.order@[j] as int).count)
                && self.count_to_node@[self.node(self.order@[j] as int).count] == self.order@[j],
            forall|c: u32| #[trigger] self.count_to_node@.contains_key(c) ==>
                self.live(self.count_to_node@[c] as int) && self.node(self.count_to_node@[c] as int).count == c,
            forall|x: int| 0 <= x < self.free_nodes@.len() ==> #[trigger] self.free_nodes@[x] < self.nodes@.len()
                && self.nodes@[self.free_nodes@[x] as int] is None,
            self.free_nodes@.no_duplicates(),
    {
        let o = old_b.order@;
        let o2 = self.order@;
        old_b.lemma_order_distinct();
        self.lemma_unlink_slots(old_b, pos, idx, count);
        assert forall|j: int| 0 <= j < o2.len() implies #[trigger] o2[j] == (if j < pos { o[j] } else { o[j + 1] }) by {}
        assert forall|j: int| 0 <= j < o2.len() implies #[trigger] self.count_to_node@.contains_key(self.node(o2[j] as int).count)
            && self.count_to_node@[self.node(o2[j] as int).count] == o2[j] by {
            let oj = if j < pos { j } else { j + 1 };
            assert(o2[j] == o[oj]);
            assert(old_b.live(o[oj] as int));
            assert(o[oj] != idx);
            assert(old_b.count_to_node@.contains_key(old_b.node(o[oj] as int).count));
            assert(old_b.node(o[oj] as int).count != old_b.node(o[pos] as int).count);
        }
        assert forall|c: u32| #[trigger] self.count_to_node@.contains_key(c) implies
            self.live(self.count_to_node@[c] as int) && self.node(self.count_to_node@[c] as int).count == c by {
            assert(old_b.count_to_node@.contains_key(c));
            assert(old_b.live(old_b.count_to_node@[c] as int));
        }
        assert(old_b.live(idx as int));
        assert(!old_b.free_nodes@.contains(idx)) by {
            if old_b.free_nodes@.contains(idx) {
                let x = choose|x: int| 0 <= x < old_b.free_nodes@.len() && old_b.free_nodes@[x] == idx;
                assert(old_b.nodes@[old_b.free_nodes@[x] as int] is None);
            }
        }
        assert forall|x: int| 0 <= x < self.free_nodes@.len() implies #[trigger] self.free_nodes@[x] < self.nodes@.len()
            && self.nodes@[self.free_nodes@[x] as int] is None by {
            if x < old_b.free_nodes@.len() {
                let f = old_b.free_nodes@[x] as int;
                assert(self.free_nodes@[x] == old_b.free_nodes@[x]);
                assert(old_b.nodes@[f] is None);
                assert(!old_b.live(f));
                if self.live(f) {
                    assert(old_b.live(f));
                }
            }
        }
        assert(self.free_nodes@.no_duplicates()) by {
            assert forall|a: int, b: int| 0 <= a < self.free_nodes@.len() && 0 <= b < self.free_nodes@.len() && a != b
                implies self.free_nodes@[a] != self.free_nodes@[b] by {
                if a < old_b.free_nodes@.len() && b < old_b.free_nodes@.len() {
                    assert(self.free_nodes@[a] == old_b.free_nodes@[a]);
                    assert(self.free_nodes@[b] == old_b.free_nodes@[b]);
                } else if a < old_b.free_nodes@.len() {
                    assert(self.free_nodes@[a] == old_b.free_nodes@[a]);
                    assert(old_b.free_nodes@.contains(old_b.free_nodes@[a]));
                } else if b < old_b.free_nodes@.len() {
                    assert(self.free_nodes@[b] == old_b.free_nodes@[b]);
                    assert(old_b.free_nodes@.contains(old_b.free_nodes@[b]));
                }
            }
        }
    }

    /// Sets the links of the bucket in slot `i`.
    fn set_links(&mut self, i: usize, prev: Option<usize>, next: Option<usize>)
        requires
            (i as int) < old(self).nodes@.len(),
            old(self).nodes@[i as int] is Some,
        ensures
            final(self).nodes@.len() == old(self).nodes@.len(),
            final(self).nodes@[i as int] == Some(MergeCandidateBucketNode { prev, next, ..old(self).nodes@[i as int].unwrap() }),
            forall|x: int| 0 <= x < old(self).nodes@.len() && x != i ==> #[trigger] final(self).nodes@[x] == old(self).nodes@[x],
            final(self).free_nodes == old(self).free_nodes,
            final(self).count_to_node == old(self).count_to_node,
            final(self).head == old(self).head,
            final(self).order == old(self).order,
    {
        match &mut self.nodes[i] {
            Some(node) => {
                node.prev = prev;
                node.next = next;
            },
            None => {},
        }
    }

    /// Adds `key` to the bucket in slot `i`.
    fn add_to_node(&mut self, i: usize, key: u64)
        requires
            (i as int) < old(self).nodes@.len(),
            old(self).nodes@[i as int] is Some,
        ensures
            final(self).nodes@.len() == old(self).nodes@.len(),
            final(self).nodes@[i as int] matches Some(n) && n.count == old(self).nodes@[i as int].unwrap().count
                && n.prev == old(self).nodes@[i as int].unwrap().prev && n.next == old(self).nodes@[i as int].unwrap().next
                && n.token_id_pairs@ == old(self).nodes@[i as int].unwrap().token_id_pairs@.insert(key),
            forall|x: int| 0 <= x < old(self).nodes@.len() && x != i ==> #[trigger] final(self).nodes@[x] == old(self).nodes@[x],
            final(self).free_nodes == old(self).free_nodes,
            final(self).count_to_node == old(self).count_to_node,
            final(self).head == old(self).head,
            final(self).order == old(self).order,
    {
        match &mut self.nodes[i] {
            Some(node) => {
                node.token_id_pairs.insert(key);
            },
            None => {},
        }
    }

    /// Removes `key` from the bucket in slot `i` and tells whether it became empty.
    fn remove_from_node(&mut self, i: usize, key: u64) -> (r: bool)
        requires
            (i as int) < old(self).nodes@.len(),
            old(self).nodes@[i as int] is Some,
        ensures
            final(self).nodes@.len() == old(self).nodes@.len(),
            final(self).nodes@[i as int] matches Some(n) && n.count == old(self).nodes@[i as int].unwrap().count
                && n.prev == old(self).nodes@[i as int].unwrap().prev && n.next == old(self).nodes@[i as int].unwrap().next
                && n.token_id_pairs@ == old(self).nodes@[i as int].unwrap().token_id_pairs@.remove(key)
                && r == n.token_id_pairs@.is_empty(),
            forall|x: int| 0 <= x < old(self).nodes@.len() && x != i ==> #[trigger] final(self).nodes@[x] == old(self).nodes@[x],
            final(self).free_nodes == old(self).free_nodes,
            final(self).count_to_node == old(self).count_to_node,
            final(self).head == old(self).head,
            final(self).order == old(self).order,
    {
        match &mut self.nodes[i] {
            Some(node) => {
                node.token_id_pairs.remove(&key);
                node.token_id_pairs.is_empty()
            },
            None => true,
        }
    }
}

impl Default for MergeCandidateBuckets {
    /// Empty buckets.
    fn default() -> (r: Self)
        ensures
            r.wf(),
            r.buckets() == Map::<u32, Set<TokenIdPair>>::empty(),
    {
        let r = MergeCandidateBuckets {
            nodes: Vec::new(),
            free_nodes: Vec::new(),
            count_to_node: HashMap::new(),
            head: None,
            order: Ghost(Seq::empty()),
        };
        proof {
            assert(r.buckets() =~= Map::<u32, Set<TokenIdPair>>::empty());
        }
        r
    }
}

} // verus!
