//! Sparse doubly linked list of tokens stored in a vector of stable slots.
//!
//! Removing a node leaves a tombstone (`None`) in its slot, so slot indices that other
//! structures hold on to stay valid across merges.

use vstd::prelude::*;
use crate::types::{MergeNodeSlot, TokenId};

verus! {

/// One token inside a [`MergeSequence`].
#[derive(Clone, Copy, Debug)]
pub struct MergeNode {
    /// Token currently stored at this position.
    pub token_id: TokenId,
    /// Slot of the previous live node, if any.
    pub prev: Option<MergeNodeSlot>,
    /// Slot of the next live node, if any.
    pub next: Option<MergeNodeSlot>,
}

/// Sparse linked list stored inside a vector of slots.
///
/// `order` lists the live slots in list order; it is ghost state that the
/// well-formedness predicate ties to the `prev`/`next` links.
pub struct MergeSequence {
    /// Slots for live nodes and tombstones from earlier merges.
    pub slots: Vec<Option<MergeNode>>,
    /// Slot of the first live node.
    pub head: Option<MergeNodeSlot>,
    /// Live slots in list order.
    pub order: Ghost<Seq<MergeNodeSlot>>,
}

/// The links a node at list position `j` of `order` must carry.
pub open spec fn links_match(order: Seq<MergeNodeSlot>, j: int, node: MergeNode) -> bool {
    &&& node.prev == (if j == 0 { None } else { Some(order[j - 1]) })
    &&& node.next == (if j + 1 == order.len() { None } else { Some(order[j + 1]) })
}

/// `order` is strictly increasing.
pub open spec fn increasing(order: Seq<MergeNodeSlot>) -> bool {
    forall|i: int, j: int| 0 <= i < j < order.len() ==> order[i] < order[j]
}

impl MergeSequence {
    /// Whether slot `s` holds a live node.
    pub open spec fn live(self, s: int) -> bool {
        0 <= s < self.slots@.len() && self.slots@[s] is Some
    }

    /// The node stored in slot `s` (meaningful when `live(s)`).
    pub open spec fn node(self, s: int) -> MergeNode {
        self.slots@[s].unwrap()
    }

    /// Well-formedness: `order` enumerates exactly the live slots, increasingly,
    /// and every live node links to its neighbours in that order.
    pub open spec fn wf(self) -> bool {
        let o = self.order@;
        &&& self.slots@.len() <= u32::MAX + 1
        &&& increasing(o)
        &&& forall|j: int| 0 <= j < o.len() ==> #[trigger] self.live(o[j] as int)
        &&& forall|s: int| #[trigger] self.live(s) ==> o.contains(s as MergeNodeSlot)
        &&& self.head == (if o.len() == 0 { None } else { Some(o[0]) })
        &&& forall|j: int| 0 <= j < o.len() ==> links_match(o, j, #[trigger] self.node(o[j] as int))
    }

    /// List position of live slot `s`.
    pub open spec fn position(self, s: MergeNodeSlot) -> int {
        choose|k: int| 0 <= k < self.order@.len() && self.order@[k] == s
    }

    /// The pair of tokens that starts at slot `s`, if `s` and its successor are live.
    pub open spec fn pair_at(self, s: int) -> Option<(TokenId, TokenId)> {
        if self.live(s) && self.node(s).next is Some && self.live(self.node(s).next.unwrap() as int) {
            Some((self.node(s).token_id, self.node(self.node(s).next.unwrap() as int).token_id))
        } else {
            None
        }
    }

    /// Positions are unique because `order` is increasing.
    pub proof fn lemma_position(self, k: int)
        requires
            self.wf(),
            0 <= k < self.order@.len(),
        ensures
            self.position(self.order@[k]) == k,
    {
        let s = self.order@[k];
        let p = self.position(s);
        assert(0 <= p < self.order@.len() && self.order@[p] == s);
        if p < k {
            assert(self.order@[p] < self.order@[k]);
        } else if p > k {
            assert(self.order@[k] < self.order@[p]);
        }
    }

    /// A live slot has a position.
    pub proof fn lemma_live_position(self, s: int)
        requires
            self.wf(),
            self.live(s),
        ensures
            0 <= self.position(s as MergeNodeSlot) < self.order@.len(),
            self.order@[self.position(s as MergeNodeSlot)] == s,
    {
        assert(self.order@.contains(s as MergeNodeSlot));
    }

    /// The pair at a listed slot is read off the view.
    pub proof fn lemma_pair_at_position(self, k: int)
        requires
            self.wf(),
            0 <= k < self.order@.len(),
        ensures
            self.pair_at(self.order@[k] as int) == (if k + 1 < self.order@.len() {
                Some((self@[k], self@[k + 1]))
            } else {
                None
            }),
    {
        let o = self.order@;
        assert(self.live(o[k] as int));
        assert(links_match(o, k, self.node(o[k] as int)));
        if k + 1 < o.len() {
            assert(self.live(o[k + 1] as int));
        }
    }


    /// The pair starting at slot `s` after splicing `[left, right]` into `m`.
    pub open spec fn spliced_pair_at(self, left: MergeNodeSlot, right: MergeNodeSlot, m: TokenId, s: int) -> Option<(TokenId, TokenId)> {
        if s == left {
            match self.node(right as int).next {
                Some(n) => Some((m, self.node(n as int).token_id)),
                None => None,
            }
        } else if s == right {
            None
        } else if 0 <= s < self.slots@.len() && self.node(left as int).prev == Some(s as MergeNodeSlot) {
            Some((self.node(s).token_id, m))
        } else {
            self.pair_at(s)
        }
    }

    proof fn lemma_splice_pair_at(old_s: Self, new_s: Self, left: MergeNodeSlot, right: MergeNodeSlot, m: TokenId, k: int)
        requires
            old_s.wf(),
            new_s.wf(),
            0 <= k && k + 1 < old_s.order@.len(),
            old_s.order@[k] == left,
            old_s.order@[k + 1] == right,
            new_s.slots@.len() == old_s.slots@.len(),
            new_s.slots@[left as int] == Some(MergeNode {
                token_id: m,
                prev: old_s.node(left as int).prev,
                next: old_s.node(right as int).next,
            }),
            new_s.slots@[right as int] is None,
            forall|s: int| 0 <= s < old_s.slots@.len() && s != left && s != right
                && Some(s as MergeNodeSlot) != old_s.node(right as int).next
                ==> #[trigger] new_s.slots@[s] == old_s.slots@[s],
            old_s.node(right as int).next matches Some(n) ==> new_s.slots@[n as int] == Some(MergeNode {
                prev: Some(left),
                ..old_s.node(n as int)
            }),
        ensures
            forall|s: int| #[trigger] new_s.pair_at(s) == old_s.spliced_pair_at(left, right, m, s),
    {
        let o = old_s.order@;
        assert(links_match(o, k, old_s.node(left as int)));
        assert(old_s.live(o[k + 1] as int));
        assert(links_match(o, k + 1, old_s.node(right as int)));
        assert(o[k] < o[k + 1]);
        if k > 0 {
            assert(o[k - 1] < o[k]);
            assert(old_s.live(o[k - 1] as int));
            assert(links_match(o, k - 1, old_s.node(o[k - 1] as int)));
        }
        if k + 2 < o.len() {
            assert(o[k + 1] < o[k + 2]);
            assert(old_s.live(o[k + 2] as int));
        }
        assert forall|s: int| #[trigger] new_s.pair_at(s) == old_s.spliced_pair_at(left, right, m, s) by {
            if s == left || s == right {
            } else if 0 <= s < old_s.slots@.len() && old_s.node(left as int).prev == Some(s as MergeNodeSlot) {
                assert(s == o[k - 1]);
            } else if 0 <= s < old_s.slots@.len() {
                if old_s.live(s) {
                    old_s.lemma_live_position(s);
                    let j = old_s.position(s as MergeNodeSlot);
                    assert(links_match(o, j, old_s.node(s)));
                    if j + 1 < o.len() {
                        assert(old_s.live(o[j + 1] as int));
                        assert(j != k - 1);
                        assert(j != k);
                        assert(j != k + 1);
                        if j + 1 == k + 2 {
                            assert(o[j + 1] == o[k + 2]);
                        } else {
                            if k + 2 < o.len() {
                                if j + 1 < k + 2 { assert(o[j + 1] < o[k + 2]); } else { assert(o[k + 2] < o[j + 1]); }
                            }
                            assert(o[j + 1] != left) by {
                                if j + 1 < k { assert(o[j + 1] < o[k]); } else { assert(o[k] < o[j + 1]); }
                            }
                            assert(o[j + 1] != right) by {
                                if j + 1 < k + 1 { assert(o[j + 1] < o[k + 1]); } else { assert(o[k + 1] < o[j + 1]); }
                            }
                        }
                    }
                }
            }
        }
    }

    /// The slot-level effect of a splice re-establishes well-formedness and
    /// yields the expected view.
    proof fn lemma_splice(old_s: Self, new_s: Self, left: MergeNodeSlot, right: MergeNodeSlot, new_token_id: TokenId, k: int)
        requires
            old_s.wf(),
            0 <= k && k + 1 < old_s.order@.len(),
            old_s.order@[k] == left,
            old_s.order@[k + 1] == right,
            new_s.order@ == old_s.order@.remove(k + 1),
            new_s.slots@.len() == old_s.slots@.len(),
            new_s.head == (if k == 0 { Some(left) } else { old_s.head }),
            new_s.slots@[left as int] == Some(MergeNode {
                token_id: new_token_id,
                prev: old_s.node(left as int).prev,
                next: old_s.node(right as int).next,
            }),
            new_s.slots@[right as int] is None,
            forall|s: int| 0 <= s < old_s.slots@.len() && s != left && s != right
                && Some(s as MergeNodeSlot) != old_s.node(right as int).next
                ==> #[trigger] new_s.slots@[s] == old_s.slots@[s],
            old_s.node(right as int).next matches Some(n) ==> new_s.slots@[n as int] == Some(MergeNode {
                prev: Some(left),
                ..old_s.node(n as int)
            }),
        ensures
            new_s.wf(),
            new_s@ == old_s@.update(k, new_token_id).remove(k + 1),
    {
        let o = old_s.order@;
        let no = new_s.order@;
        assert(links_match(o, k, old_s.node(left as int)));
        assert(old_s.live(o[k + 1] as int));
        assert(links_match(o, k + 1, old_s.node(right as int)));
        assert(o[k] < o[k + 1]);
        if k > 0 {
            assert(o[k - 1] < o[k]);
            assert(old_s.live(o[k - 1] as int));
        }
        if k + 2 < o.len() {
            assert(o[k + 1] < o[k + 2]);
            assert(old_s.live(o[k + 2] as int));
            assert(links_match(o, k + 2, old_s.node(o[k + 2] as int)));
        }
        assert(increasing(no));
        assert forall|j: int| 0 <= j < no.len() implies #[trigger] new_s.live(no[j] as int) by {
            if j < k {
                assert(no[j] == o[j]);
                assert(old_s.live(o[j] as int));
                assert(o[j] < o[k]);
                assert(o[j] < o[k + 1]);
            } else if j > k {
                assert(no[j] == o[j + 1]);
                assert(old_s.live(o[j + 1] as int));
                assert(o[k + 1] < o[j + 1]);
            }
        }
        assert forall|s: int| #[trigger] new_s.live(s) implies no.contains(s as MergeNodeSlot) by {
            assert(s != right);
            if s == left {
                assert(no[k] == left);
            } else {
                assert(old_s.live(s));
                old_s.lemma_live_position(s);
                let i = old_s.position(s as MergeNodeSlot);
                if i < k {
                    assert(no[i] == s);
                } else {
                    assert(i != k + 1);
                    assert(i != k);
                    assert(no[i - 1] == s);
                }
            }
        }
        assert forall|j: int| 0 <= j < no.len() implies links_match(no, j, #[trigger] new_s.node(no[j] as int)) by {
            if j < k {
                assert(no[j] == o[j]);
                assert(links_match(o, j, old_s.node(o[j] as int)));
                assert(o[j] < o[k]);
                assert(o[j] < o[k + 1]);
                if j + 1 < k {
                    assert(no[j + 1] == o[j + 1]);
                }
            } else if j == k {
                if k > 0 {
                    assert(no[k - 1] == o[k - 1]);
                }
                if k + 2 < o.len() {
                    assert(no[k + 1] == o[k + 2]);
                }
            } else {
                assert(no[j] == o[j + 1]);
                assert(links_match(o, j + 1, old_s.node(o[j + 1] as int)));
                assert(o[k] < o[j + 1]);
                assert(o[k + 1] < o[j + 1]);
                assert(old_s.live(o[j + 1] as int));
                if j > k + 1 {
                    assert(o[k + 2] < o[j + 1]);
                }
                if j > k + 1 {
                    assert(no[j - 1] == o[j]);
                }
                if j + 1 < no.len() {
                    assert(no[j + 1] == o[j + 2]);
                }
            }
        }
        assert forall|i: int| 0 <= i < no.len() implies #[trigger] new_s@[i] == old_s@.update(k, new_token_id).remove(k + 1)[i] by {
            if i < k {
                assert(no[i] == o[i]);
                assert(o[i] < o[k]);
                assert(o[i] < o[k + 1]);
                assert(old_s.live(o[i] as int));
            } else if i > k {
                assert(no[i] == o[i + 1]);
                assert(o[k] < o[i + 1]);
                assert(o[k + 1] < o[i + 1]);
                assert(old_s.live(o[i + 1] as int));
            }
        }
        assert(new_s@ =~= old_s@.update(k, new_token_id).remove(k + 1));
    }
}

impl MergeSequence {
    /// The sequence is laid out as a fresh one holding `t`: one node per
    /// token in slots `0..t.len()`, each linked to its neighbours, the head
    /// at slot 0.
    pub open spec fn laid_out(self, t: Seq<TokenId>) -> bool {
        &&& self.slots@.len() == t.len()
        &&& self.order@ == Seq::new(t.len(), |i: int| i as MergeNodeSlot)
        &&& self.head == (if t.len() == 0 { None } else { Some(0u32) })
        &&& forall|i: int| 0 <= i < t.len() ==> (#[trigger] self.slots@[i]) == Some(MergeNode {
                token_id: t[i],
                prev: if i == 0 { None } else { Some((i - 1) as MergeNodeSlot) },
                next: if i + 1 == t.len() { None } else { Some((i + 1) as MergeNodeSlot) },
            })
    }
}

impl View for MergeSequence {
    type V = Seq<TokenId>;

    /// Tokens of the live nodes in list order.
    open spec fn view(&self) -> Seq<TokenId> {
        self.order@.map_values(|s: MergeNodeSlot| self.slots@[s as int].unwrap().token_id)
    }
}

impl MergeSequence {
    /// Creates a merge sequence containing exactly one pre-tokenized token.
    pub fn from_token_id(token_id: TokenId) -> (r: Self)
        ensures
            r.wf(),
            r@ == seq![token_id],
            r.slots@ == seq![Some(MergeNode { token_id, prev: None, next: None })],
            r.head == Some(0u32),
            r.laid_out(seq![token_id]),
    {
        let mut slots: Vec<Option<MergeNode>> = Vec::new();
        slots.push(Some(MergeNode { token_id, prev: None, next: None }));
        let ghost o = seq![0u32];
        let r = MergeSequence { slots, head: Some(0), order: Ghost(o) };
        proof {
            assert(r.order@[0] == 0u32);
            assert(r.order@.contains(0u32));
            assert forall|s: int| #[trigger] r.live(s) implies r.order@.contains(s as MergeNodeSlot) by {
                assert(s == 0);
            }
            assert(r@ =~= seq![token_id]);
            assert(r.order@ =~= Seq::new(1, |i: int| i as MergeNodeSlot));
        }
        r
    }

    /// Creates a byte-level merge sequence where each input byte becomes one node.
    pub fn new(bytes: &[u8]) -> (r: Self)
        requires
            bytes@.len() <= u32::MAX + 1,
        ensures
            r.wf(),
            r@ == bytes@.map_values(|b: u8| b as TokenId),
            r.slots@.len() == bytes@.len(),
            r.order@ == Seq::new(bytes@.len(), |i: int| i as MergeNodeSlot),
            r.head == (if bytes@.len() == 0 { None } else { Some(0u32) }),
            forall|i: int| 0 <= i < bytes@.len() ==> (#[trigger] r.slots@[i]) == Some(MergeNode {
                token_id: bytes@[i] as TokenId,
                prev: if i == 0 { None } else { Some((i - 1) as MergeNodeSlot) },
                next: if i + 1 == bytes@.len() { None } else { Some((i + 1) as MergeNodeSlot) },
            }),
            r.laid_out(bytes@.map_values(|b: u8| b as TokenId)),
    {
        let len = bytes.len();
        let mut slots: Vec<Option<MergeNode>> = Vec::new();
        let mut index: usize = 0;
        while index < len
            invariant
                len == bytes@.len(),
                len <= u32::MAX + 1,
                index <= len,
                slots@.len() == index,
                forall|i: int| 0 <= i < index ==> (#[trigger] slots@[i]) == Some(MergeNode {
                    token_id: bytes@[i] as TokenId,
                    prev: if i == 0 { None } else { Some((i - 1) as MergeNodeSlot) },
                    next: if i + 1 == len { None } else { Some((i + 1) as MergeNodeSlot) },
                }),
            decreases len - index,
        {
            let pos: MergeNodeSlot = index as MergeNodeSlot;
            let prev: Option<MergeNodeSlot> = if pos == 0 { None } else { Some(pos - 1) };
            let next: Option<MergeNodeSlot> = if index + 1 < len { Some(pos + 1) } else { None };
            slots.push(Some(MergeNode { token_id: bytes[index] as TokenId, prev, next }));
            index = index + 1;
        }
        let head: Option<MergeNodeSlot> = if len == 0 { None } else { Some(0) };
        let ghost o = Seq::new(len as nat, |i: int| i as MergeNodeSlot);
        let r = MergeSequence { slots, head, order: Ghost(o) };
        proof {
            assert forall|s: int| #[trigger] r.live(s) implies r.order@.contains(s as MergeNodeSlot) by {
                assert(o[s] == s as MergeNodeSlot);
            }
            assert forall|j: int| 0 <= j < o.len() implies links_match(o, j, #[trigger] r.node(o[j] as int)) by {
                assert(o[j] as int == j);
            }
            assert forall|j: int| 0 <= j < o.len() implies #[trigger] r.live(o[j] as int) by {
                assert(o[j] as int == j);
            }
            assert(r@ =~= bytes@.map_values(|b: u8| b as TokenId));
        }
        r
    }

    /// Lists live nodes with their slots, in list order.
    pub fn iter(&self) -> (r: Vec<(MergeNodeSlot, MergeNode)>)
        requires
            self.wf(),
        ensures
            r@.len() == self.order@.len(),
            forall|j: int| 0 <= j < r@.len() ==> (#[trigger] r@[j]) == (self.order@[j], self.node(self.order@[j] as int)),
    {
        let mut r: Vec<(MergeNodeSlot, MergeNode)> = Vec::new();
        let mut current = self.head;
        let ghost o = self.order@;
        while current.is_some()
            invariant
                self.wf(),
                o == self.order@,
                r@.len() <= o.len(),
                current == (if r@.len() == o.len() { None } else { Some(o[r@.len() as int]) }),
                forall|j: int| 0 <= j < r@.len() ==> (#[trigger] r@[j]) == (o[j], self.node(o[j] as int)),
            decreases o.len() - r@.len(),
        {
            let pos = current.unwrap();
            proof {
                let k = r@.len() as int;
                assert(self.live(o[k] as int));
                assert(links_match(o, k, self.node(o[k] as int)));
            }
            let node = self.slots[pos as usize].unwrap();
            r.push((pos, node));
            current = node.next;
        }
        r
    }

    /// Replaces the adjacent pair `[left, right]` with one node carrying `new_token_id`,
    /// kept in the `left` slot; the `right` slot becomes a tombstone.
    pub fn splice(&mut self, left: MergeNodeSlot, right: MergeNodeSlot, new_token_id: TokenId) -> (r: MergeNodeSlot)
        requires
            old(self).wf(),
            old(self).live(left as int),
            old(self).node(left as int).next == Some(right),
        ensures
            r == left,
            final(self).wf(),
            final(self).slots@.len() == old(self).slots@.len(),
            ({
                let k = old(self).position(left);
                &&& 0 <= k && k + 1 < old(self).order@.len()
                &&& old(self).order@[k] == left
                &&& old(self).order@[k + 1] == right
                &&& final(self).order@ == old(self).order@.remove(k + 1)
                &&& final(self)@ == old(self)@.update(k, new_token_id).remove(k + 1)
            }),
            final(self).slots@[left as int] == Some(MergeNode {
                token_id: new_token_id,
                prev: old(self).node(left as int).prev,
                next: old(self).node(right as int).next,
            }),
            final(self).slots@[right as int] is None,
            forall|s: int| 0 <= s < old(self).slots@.len() && s != left && s != right
                && Some(s as MergeNodeSlot) != old(self).node(right as int).next
                ==> #[trigger] final(self).slots@[s] == old(self).slots@[s],
            old(self).node(right as int).next matches Some(n) ==> final(self).slots@[n as int] == Some(MergeNode {
                prev: Some(left),
                ..old(self).node(n as int)
            }),
            forall|s: int| #[trigger] final(self).pair_at(s) == old(self).spliced_pair_at(left, right, new_token_id, s),
    {
        let ghost o = self.order@;
        let ghost k = self.position(left);
        proof {
            self.lemma_live_position(left as int);
            assert(links_match(o, k, self.node(left as int)));
            assert(k + 1 < o.len());
            assert(self.live(o[k + 1] as int));
            assert(links_match(o, k + 1, self.node(right as int)));
            if k > 0 {
                assert(self.live(o[k - 1] as int));
                assert(links_match(o, k - 1, self.node(o[k - 1] as int)));
            }
            if k + 2 < o.len() {
                assert(self.live(o[k + 2] as int));
                assert(links_match(o, k + 2, self.node(o[k + 2] as int)));
            }
        }
        let ghost old_self = *self;
        let left_node = self.slots[left as usize].unwrap();
        let right_node = self.slots[right as usize].unwrap();
        let merged = MergeNode { token_id: new_token_id, prev: left_node.prev, next: right_node.next };
        match merged.prev {
            Some(prev_pos) => {
                let mut p = self.slots[prev_pos as usize].unwrap();
                p.next = Some(left);
                self.slots.set(prev_pos as usize, Some(p));
            },
            None => {
                self.head = Some(left);
            },
        }
        match merged.next {
            Some(next_pos) => {
                let mut n = self.slots[next_pos as usize].unwrap();
                n.prev = Some(left);
                self.slots.set(next_pos as usize, Some(n));
            },
            None => {},
        }
        self.slots.set(left as usize, Some(merged));
        self.slots.set(right as usize, None);
        self.order = Ghost(o.remove(k + 1));
        proof {
            if k > 0 {
                assert(o[k - 1] < o[k]);
            }
            if k + 2 < o.len() {
                assert(o[k + 1] < o[k + 2]);
            }
            assert(o[k] < o[k + 1]);
            assert forall|s: int| 0 <= s < old_self.slots@.len() && s != left && s != right
                && Some(s as MergeNodeSlot) != old_self.node(right as int).next
                implies #[trigger] self.slots@[s] == old_self.slots@[s] by {
            }
            Self::lemma_splice(old_self, *self, left, right, new_token_id, k);
            Self::lemma_splice_pair_at(old_self, *self, left, right, new_token_id, k);
        }
        left
    }
}

} // verus!
