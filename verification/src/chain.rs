//! Sparse doubly linked list of tokens stored in a fixed-width vector, with the
//! [`NONE`] sentinel standing for a missing link or a removed node.

use vstd::prelude::*;
use crate::types::{NodePos, TokenId, NONE};

verus! {

/// One token inside a [`Chain`].
#[derive(Clone, Copy, Debug)]
pub struct Node {
    /// Token currently stored at this position ([`NONE`] for a removed node).
    pub token_id: TokenId,
    /// Index of the previous live node or [`NONE`] if absent.
    pub prev: NodePos,
    /// Index of the next live node or [`NONE`] if absent.
    pub next: NodePos,
}

/// Sparse linked list stored inside a fixed-width `Vec`.
///
/// `order` lists the live positions in list order; it is ghost state that the
/// well-formedness predicate ties to the `prev`/`next` links.
pub struct Chain {
    /// Slots for live nodes and tombstones from earlier merges.
    pub nodes: Vec<Node>,
    /// Index of the first live node, or [`NONE`] if empty.
    pub head: NodePos,
    /// Live positions in list order.
    pub order: Ghost<Seq<NodePos>>,
}

/// The links a node at list position `j` of `order` must carry.
pub open spec fn chain_links_match(order: Seq<NodePos>, j: int, node: Node) -> bool {
    &&& node.prev == (if j == 0 { NONE } else { order[j - 1] })
    &&& node.next == (if j + 1 == order.len() { NONE } else { order[j + 1] })
}

/// `order` is strictly increasing.
pub open spec fn chain_increasing(order: Seq<NodePos>) -> bool {
    forall|i: int, j: int| 0 <= i < j < order.len() ==> order[i] < order[j]
}

/// The tombstone left behind by a merge.
pub open spec fn removed_node() -> Node {
    Node { token_id: NONE, prev: NONE, next: NONE }
}

impl Chain {
    /// Whether position `s` holds a live node.
    pub open spec fn live(self, s: int) -> bool {
        0 <= s < self.nodes@.len() && self.nodes@[s].token_id != NONE
    }

    /// The node stored at position `s`.
    pub open spec fn node(self, s: int) -> Node {
        self.nodes@[s]
    }

    /// Well-formedness: `order` enumerates exactly the live positions, increasingly,
    /// every live node links to its neighbours in that order, and removed nodes
    /// are tombstones.
    pub open spec fn wf(self) -> bool {
        let o = self.order@;
        &&& self.nodes@.len() <= NONE
        &&& chain_increasing(o)
        &&& forall|j: int| 0 <= j < o.len() ==> #[trigger] self.live(o[j] as int)
        &&& forall|s: int| #[trigger] self.live(s) ==> o.contains(s as NodePos)
        &&& forall|s: int| 0 <= s < self.nodes@.len() && !self.live(s) ==> #[trigger] self.nodes@[s] == removed_node()
        &&& self.head == (if o.len() == 0 { NONE } else { o[0] })
        &&& forall|j: int| 0 <= j < o.len() ==> chain_links_match(o, j, #[trigger] self.node(o[j] as int))
    }

    /// List position of live position `s`.
    pub open spec fn position(self, s: NodePos) -> int {
        choose|k: int| 0 <= k < self.order@.len() && self.order@[k] == s
    }

    /// A live position has a list position.
    pub proof fn lemma_live_position(self, s: int)
        requires
            self.wf(),
            self.live(s),
        ensures
            0 <= self.position(s as NodePos) < self.order@.len(),
            self.order@[self.position(s as NodePos)] == s,
    {
        assert(self.order@.contains(s as NodePos));
    }

    /// The slot-level effect of a splice re-establishes well-formedness and
    /// yields the expected view.
    #[verifier::spinoff_prover]
    #[verifier::rlimit(40)]
    proof fn lemma_splice(old_s: Self, new_s: Self, left: NodePos, right: NodePos, new_token_id: TokenId, k: int)
        requires
            old_s.wf(),
            new_token_id != NONE,
            0 <= k && k + 1 < old_s.order@.len(),
            old_s.order@[k] == left,
            old_s.order@[k + 1] == right,
            new_s.order@ == old_s.order@.remove(k + 1),
            new_s.nodes@.len() == old_s.nodes@.len(),
            new_s.head == (if k == 0 { left } else { old_s.head }),
            new_s.nodes@[left as int] == (Node {
                token_id: new_token_id,
                prev: old_s.node(left as int).prev,
                next: old_s.node(right as int).next,
            }),
            new_s.nodes@[right as int] == removed_node(),
            forall|s: int| 0 <= s < old_s.nodes@.len() && s != left && s != right
                && s != old_s.node(right as int).next
                ==> #[trigger] new_s.nodes@[s] == old_s.nodes@[s],
            old_s.node(right as int).next != NONE ==> new_s.nodes@[old_s.node(right as int).next as int] == (Node {
                prev: left,
                ..old_s.node(old_s.node(right as int).next as int)
            }),
        ensures
            new_s.wf(),
            new_s@ == old_s@.update(k, new_token_id).remove(k + 1),
    {
        let o = old_s.order@;
        let no = new_s.order@;
        assert(chain_links_match(o, k, old_s.node(left as int)));
        assert(old_s.live(o[k + 1] as int));
        assert(chain_links_match(o, k + 1, old_s.node(right as int)));
        assert(o[k] < o[k + 1]);
        if k > 0 {
            assert(o[k - 1] < o[k]);
            assert(old_s.live(o[k - 1] as int));
        }
        if k + 2 < o.len() {
            assert(o[k + 1] < o[k + 2]);
            assert(old_s.live(o[k + 2] as int));
            assert(chain_links_match(o, k + 2, old_s.node(o[k + 2] as int)));
        }
        assert(chain_increasing(no));
        assert forall|j: int| 0 <= j < no.len() implies #[trigger] new_s.live(no[j] as int) by {
            if j < k {
                assert(no[j] == o[j]);
                assert(old_s.live(o[j] as int));
                assert(o[j] < o[k]);
                assert(o[j] < o[k + 1]);
            } else if j > k {
                assert(no[j] == o[j + 1]);
                assert(old_s.live(o[j + 1] as int));
                assert(o[k + 1] < o[j + 1]);
            }
        }
        assert forall|s: int| #[trigger] new_s.live(s) implies no.contains(s as NodePos) by {
            assert(s != right);
            if s == left {
                assert(no[k] == left);
            } else {
                assert(old_s.live(s));
                old_s.lemma_live_position(s);
                let i = old_s.position(s as NodePos);
                if i < k {
                    assert(no[i] == s);
                } else {
                    assert(i != k + 1);
                    assert(i != k);
                    assert(no[i - 1] == s);
                }
            }
        }
        assert forall|s: int| 0 <= s < new_s.nodes@.len() && !new_s.live(s) implies #[trigger] new_s.nodes@[s] == removed_node() by {
            if s != right {
                assert(!old_s.live(s));
            }
        }
        assert forall|j: int| 0 <= j < no.len() implies chain_links_match(no, j, #[trigger] new_s.node(no[j] as int)) by {
            if j < k {
                assert(no[j] == o[j]);
                assert(chain_links_match(o, j, old_s.node(o[j] as int)));
                assert(o[j] < o[k]);
                assert(o[j] < o[k + 1]);
                if j + 1 < k {
                    assert(no[j + 1] == o[j + 1]);
                }
            } else if j == k {
                if k > 0 {
                    assert(no[k - 1] == o[k - 1]);
                }
                if k + 2 < o.len() {
                    assert(no[k + 1] == o[k + 2]);
                }
            } else {
                assert(no[j] == o[j + 1]);
                assert(chain_links_match(o, j + 1, old_s.node(o[j + 1] as int)));
                assert(o[k] < o[j + 1]);
                assert(o[k + 1] < o[j + 1]);
                assert(old_s.live(o[j + 1] as int));
                if j > k + 1 {
                    assert(o[k + 2] < o[j + 1]);
                    assert(no[j - 1] == o[j]);
                }
                if j + 1 < no.len() {
                    assert(no[j + 1] == o[j + 2]);
                }
            }
        }
        assert forall|i: int| 0 <= i < no.len() implies #[trigger] new_s@[i] == old_s@.update(k, new_token_id).remove(k + 1)[i] by {
            if i < k {
                assert(no[i] == o[i]);
                assert(o[i] < o[k]);
                assert(o[i] < o[k + 1]);
                assert(old_s.live(o[i] as int));
            } else if i > k {
                assert(no[i] == o[i + 1]);
                assert(o[k] < o[i + 1]);
                assert(o[k + 1] < o[i + 1]);
                assert(old_s.live(o[i + 1] as int));
                if i > k + 1 {
                    assert(o[k + 2] < o[i + 1]);
                }
            }
        }
        assert(new_s@ =~= old_s@.update(k, new_token_id).remove(k + 1));
    }
}

impl View for Chain {
    type V = Seq<TokenId>;

    /// Tokens of the live nodes in list order.
    open spec fn view(&self) -> Seq<TokenId> {
        self.order@.map_values(|s: NodePos| self.nodes@[s as int].token_id)
    }
}

impl Chain {
    /// Creates a chain containing exactly one pre-tokenized token.
    pub fn from_token_id(token_id: TokenId) -> (r: Self)
        requires
            token_id != NONE,
        ensures
            r.wf(),
            r@ == seq![token_id],
            r.nodes@ == seq![Node { token_id, prev: NONE, next: NONE }],
            r.head == 0,
    {
        let mut nodes: Vec<Node> = Vec::new();
        nodes.push(Node { token_id, prev: NONE, next: NONE });
        let ghost o = seq![0u32];
        let r = Chain { nodes, head: 0, order: Ghost(o) };
        proof {
            assert(r.order@[0] == 0u32);
            assert(r.order@.contains(0u32));
            assert forall|s: int| #[trigger] r.live(s) implies r.order@.contains(s as NodePos) by {
                assert(s == 0);
            }
            assert(r@ =~= seq![token_id]);
        }
        r
    }

    /// Creates a byte-level chain where each input byte becomes one node.
    pub fn new(bytes: &[u8]) -> (r: Self)
        requires
            bytes@.len() <= NONE,
        ensures
            r.wf(),
            r@ == bytes@.map_values(|b: u8| b as TokenId),
            r.nodes@.len() == bytes@.len(),
            r.order@ == Seq::new(bytes@.len(), |i: int| i as NodePos),
            r.head == (if bytes@.len() == 0 { NONE } else { 0u32 }),
            forall|i: int| 0 <= i < bytes@.len() ==> (#[trigger] r.nodes@[i]) == (Node {
                token_id: bytes@[i] as TokenId,
                prev: if i == 0 { NONE } else { (i - 1) as NodePos },
                next: if i + 1 == bytes@.len() { NONE } else { (i + 1) as NodePos },
            }),
    {
        let len = bytes.len();
        let mut nodes: Vec<Node> = Vec::new();
        let mut index: usize = 0;
        while index < len
            invariant
                len == bytes@.len(),
                len <= NONE,
                index <= len,
                nodes@.len() == index,
                forall|i: int| 0 <= i < index ==> (#[trigger] nodes@[i]) == (Node {
                    token_id: bytes@[i] as TokenId,
                    prev: if i == 0 { NONE } else { (i - 1) as NodePos },
                    next: if i + 1 == len { NONE } else { (i + 1) as NodePos },
                }),
            decreases len - index,
        {
            let pos: NodePos = index as NodePos;
            let prev: NodePos = if pos == 0 { NONE } else { pos - 1 };
            let next: NodePos = if index + 1 < len { pos + 1 } else { NONE };
            nodes.push(Node { token_id: bytes[index] as TokenId, prev, next });
            index = index + 1;
        }
        let head: NodePos = if len == 0 { NONE } else { 0 };
        let ghost o = Seq::new(len as nat, |i: int| i as NodePos);
        let r = Chain { nodes, head, order: Ghost(o) };
        proof {
            assert forall|i: int| 0 <= i < len implies #[trigger] r.nodes@[i].token_id != NONE by {
                assert(bytes@[i] < 256);
            }
            assert forall|s: int| #[trigger] r.live(s) implies r.order@.contains(s as NodePos) by {
                assert(o[s] == s as NodePos);
            }
            assert forall|j: int| 0 <= j < o.len() implies chain_links_match(o, j, #[trigger] r.node(o[j] as int)) by {
                assert(o[j] as int == j);
            }
            assert forall|j: int| 0 <= j < o.len() implies #[trigger] r.live(o[j] as int) by {
                assert(o[j] as int == j);
                assert(bytes@[j] < 256);
            }
            assert(r@ =~= bytes@.map_values(|b: u8| b as TokenId));
        }
        r
    }

    /// Lists live nodes with their positions, in list order.
    pub fn iter(&self) -> (r: Vec<(NodePos, Node)>)
        requires
            self.wf(),
        ensures
            r@.len() == self.order@.len(),
            forall|j: int| 0 <= j < r@.len() ==> (#[trigger] r@[j]) == (self.order@[j], self.node(self.order@[j] as int)),
    {
        let mut r: Vec<(NodePos, Node)> = Vec::new();
        let mut current = self.head;
        let ghost o = self.order@;
        while current != NONE
            invariant
                self.wf(),
                o == self.order@,
                r@.len() <= o.len(),
                current == (if r@.len() == o.len() { NONE } else { o[r@.len() as int] }),
                forall|j: int| 0 <= j < r@.len() ==> (#[trigger] r@[j]) == (o[j], self.node(o[j] as int)),
            decreases o.len() - r@.len(),
        {
            proof {
                let k = r@.len() as int;
                if k == o.len() {
                    assert(false);
                }
                assert(self.live(o[k] as int));
                assert(chain_links_match(o, k, self.node(o[k] as int)));
            }
            let pos = current;
            let node = self.nodes[pos as usize];
            r.push((pos, node));
            current = node.next;
        }
        proof {
            if r@.len() < o.len() {
                assert(self.live(o[r@.len() as int] as int));
            }
        }
        r
    }

    /// Replaces the adjacent pair `[left, right]` with one node carrying `new_token_id`,
    /// kept at `left`; the node at `right` becomes a tombstone.
    pub fn splice(&mut self, left: NodePos, right: NodePos, new_token_id: TokenId) -> (r: NodePos)
        requires
            old(self).wf(),
            old(self).live(left as int),
            old(self).node(left as int).next == right,
            right != NONE,
            new_token_id != NONE,
        ensures
            r == left,
            final(self).wf(),
            final(self).nodes@.len() == old(self).nodes@.len(),
            ({
                let k = old(self).position(left);
                &&& 0 <= k && k + 1 < old(self).order@.len()
                &&& old(self).order@[k] == left
                &&& old(self).order@[k + 1] == right
                &&& final(self).order@ == old(self).order@.remove(k + 1)
                &&& final(self)@ == old(self)@.update(k, new_token_id).remove(k + 1)
            }),
            final(self).nodes@[left as int] == (Node {
                token_id: new_token_id,
                prev: old(self).node(left as int).prev,
                next: old(self).node(right as int).next,
            }),
            final(self).nodes@[right as int] == removed_node(),
    {
        let ghost o = self.order@;
        let ghost k = self.position(left);
        proof {
            self.lemma_live_position(left as int);
            assert(chain_links_match(o, k, self.node(left as int)));
            assert(k + 1 < o.len());
            assert(self.live(o[k + 1] as int));
            assert(chain_links_match(o, k + 1, self.node(right as int)));
            if k > 0 {
                assert(self.live(o[k - 1] as int));
                assert(chain_links_match(o, k - 1, self.node(o[k - 1] as int)));
                assert(o[k - 1] < o[k]);
            }
            if k + 2 < o.len() {
                assert(self.live(o[k + 2] as int));
                assert(chain_links_match(o, k + 2, self.node(o[k + 2] as int)));
                assert(o[k + 1] < o[k + 2]);
            }
            assert(o[k] < o[k + 1]);
        }
        let ghost old_self = *self;
        let left_node = self.nodes[left as usize];
        let right_node = self.nodes[right as usize];
        let merged = Node { token_id: new_token_id, prev: left_node.prev, next: right_node.next };
        if merged.prev != NONE {
            let mut p = self.nodes[merged.prev as usize];
            p.next = left;
            self.nodes.set(merged.prev as usize, p);
        } else {
            self.head = left;
        }
        if merged.next != NONE {
            let mut n = self.nodes[merged.next as usize];
            n.prev = left;
            self.nodes.set(merged.next as usize, n);
        }
        self.nodes.set(left as usize, merged);
        self.nodes.set(right as usize, Node { token_id: NONE, prev: NONE, next: NONE });
        self.order = Ghost(o.remove(k + 1));
        proof {
            assert forall|s: int| 0 <= s < old_self.nodes@.len() && s != left && s != right
                && s != old_self.node(right as int).next
                implies #[trigger] self.nodes@[s] == old_self.nodes@[s] by {
            }
            Self::lemma_splice(old_self, *self, left, right, new_token_id, k);
        }
        left
    }
}

} // verus!
