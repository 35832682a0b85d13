use fast_bpe_rs::chain::Chain;
use fast_bpe_rs::types::{NodePos, NONE};

#[test]
fn new_chain_preserves_byte_order_and_links() {
    let chain = Chain::new(b"abc");
    let nodes: Vec<_> = chain.iter();

    assert_eq!(chain.head, 0);
    assert_eq!(nodes.len(), 3);
    assert_eq!(nodes[0].0, 0);
    assert_eq!(nodes[0].1.token_id, b'a' as u32);
    assert_eq!(nodes[0].1.prev, NONE);
    assert_eq!(nodes[0].1.next, 1);
    assert_eq!(nodes[1].0, 1);
    assert_eq!(nodes[1].1.token_id, b'b' as u32);
    assert_eq!(nodes[1].1.prev, 0);
    assert_eq!(nodes[1].1.next, 2);
    assert_eq!(nodes[2].0, 2);
    assert_eq!(nodes[2].1.token_id, b'c' as u32);
    assert_eq!(nodes[2].1.prev, 1);
    assert_eq!(nodes[2].1.next, NONE);
}

#[test]
fn empty_chain_has_no_head_or_nodes() {
    let chain = Chain::new(b"");

    assert_eq!(chain.head, NONE);
    assert!(chain.nodes.is_empty());
    assert_eq!(chain.iter().len(), 0);
}

#[test]
fn chain_splice_updates_links_for_middle_pair() {
    let mut chain = Chain::new(b"abcd");

    let merged_pos = chain.splice(1, 2, 999);
    let nodes: Vec<(NodePos, u32)> = chain
        .iter()
        .into_iter()
        .map(|(pos, node)| (pos, node.token_id))
        .collect();

    assert_eq!(merged_pos, 1);
    assert_eq!(nodes, vec![(0, b'a' as u32), (1, 999), (3, b'd' as u32)]);
    assert_eq!(chain.head, 0);
    assert_eq!(chain.nodes.len(), 4);
    assert_eq!(chain.nodes[0].next, 1);
    assert_eq!(chain.nodes[3].prev, 1);
    assert_eq!(chain.nodes[2].token_id, NONE);
}

#[test]
fn chain_splice_updates_head_when_merging_first_pair() {
    let mut chain = Chain::new(b"abc");

    let merged_pos = chain.splice(0, 1, 777);
    let nodes: Vec<(NodePos, u32)> = chain
        .iter()
        .into_iter()
        .map(|(pos, node)| (pos, node.token_id))
        .collect();

    assert_eq!(merged_pos, 0);
    assert_eq!(chain.head, 0);
    assert_eq!(nodes, vec![(0, 777), (2, b'c' as u32)]);
    assert_eq!(chain.nodes[2].prev, 0);
    assert_eq!(chain.nodes[1].token_id, NONE);
}

#[test]
fn chain_repeated_splices_reuse_existing_capacity() {
    let mut chain = Chain::new(b"aaaa");

    let first = chain.splice(0, 1, 256);
    let second = chain.splice(first, 2, 257);

    let nodes: Vec<(NodePos, u32)> = chain
        .iter()
        .into_iter()
        .map(|(pos, node)| (pos, node.token_id))
        .collect();

    assert_eq!(second, 0);
    assert_eq!(chain.nodes.len(), 4);
    assert_eq!(nodes, vec![(0, 257), (3, b'a' as u32)]);
    assert_eq!(chain.nodes[1].token_id, NONE);
    assert_eq!(chain.nodes[2].token_id, NONE);
}

#[test]
fn chain_from_token_id_creates_single_live_node() {
    let chain = Chain::from_token_id(42);
    let nodes = chain.iter();

    assert_eq!(chain.head, 0);
    assert_eq!(nodes.len(), 1);
    assert_eq!(nodes[0].0, 0);
    assert_eq!(nodes[0].1.token_id, 42);
    assert_eq!(nodes[0].1.prev, NONE);
    assert_eq!(nodes[0].1.next, NONE);
}

#[test]
fn chain_splice_of_last_pair_clears_tail_link() {
    let mut chain = Chain::new(b"xyz");

    let merged_pos = chain.splice(1, 2, 4242);

    assert_eq!(merged_pos, 1);
    assert_eq!(chain.nodes[1].prev, 0);
    assert_eq!(chain.nodes[1].next, NONE);
    assert_eq!(chain.nodes[2].token_id, NONE);
    assert_eq!(chain.nodes[2].prev, NONE);
    assert_eq!(chain.nodes[2].next, NONE);
}
