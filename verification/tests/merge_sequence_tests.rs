use fast_bpe_rs::merge_sequence::MergeSequence;
use fast_bpe_rs::types::MergeNodeSlot;

fn slots_and_tokens(merge_sequence: &MergeSequence) -> Vec<(MergeNodeSlot, u32)> {
    merge_sequence
        .iter()
        .into_iter()
        .map(|(pos, node)| (pos, node.token_id))
        .collect()
}

#[test]
fn new_merge_sequence_preserves_byte_order_and_links() {
    let merge_sequence = MergeSequence::new(b"abc");
    let slots: Vec<_> = merge_sequence.iter();

    assert_eq!(merge_sequence.head, Some(0));
    assert_eq!(slots.len(), 3);
    assert_eq!(slots[0].0, 0);
    assert_eq!(slots[0].1.token_id, b'a' as u32);
    assert_eq!(slots[0].1.prev, None);
    assert_eq!(slots[0].1.next, Some(1));
    assert_eq!(slots[1].0, 1);
    assert_eq!(slots[1].1.token_id, b'b' as u32);
    assert_eq!(slots[1].1.prev, Some(0));
    assert_eq!(slots[1].1.next, Some(2));
    assert_eq!(slots[2].0, 2);
    assert_eq!(slots[2].1.token_id, b'c' as u32);
    assert_eq!(slots[2].1.prev, Some(1));
    assert_eq!(slots[2].1.next, None);
}

#[test]
fn empty_merge_sequence_has_no_head_or_nodes() {
    let merge_sequence = MergeSequence::new(b"");

    assert_eq!(merge_sequence.head, None);
    assert!(merge_sequence.slots.is_empty());
    assert_eq!(merge_sequence.iter().len(), 0);
}

#[test]
fn merge_sequence_splice_updates_links_for_middle_pair() {
    let mut merge_sequence = MergeSequence::new(b"abcd");

    let merged_slot = merge_sequence.splice(1, 2, 999);
    let slots = slots_and_tokens(&merge_sequence);

    assert_eq!(merged_slot, 1);
    assert_eq!(slots, vec![(0, b'a' as u32), (1, 999), (3, b'd' as u32)]);
    assert_eq!(merge_sequence.head, Some(0));
    assert_eq!(merge_sequence.slots.len(), 4);
    assert_eq!(
        merge_sequence.slots[0].expect("node 0 should exist").next,
        Some(1)
    );
    assert_eq!(
        merge_sequence.slots[3].expect("node 3 should exist").prev,
        Some(1)
    );
    assert!(merge_sequence.slots[2].is_none());
}

#[test]
fn merge_sequence_splice_updates_head_when_merging_first_pair() {
    let mut merge_sequence = MergeSequence::new(b"abc");

    let merged_slot = merge_sequence.splice(0, 1, 777);
    let slots = slots_and_tokens(&merge_sequence);

    assert_eq!(merged_slot, 0);
    assert_eq!(merge_sequence.head, Some(0));
    assert_eq!(slots, vec![(0, 777), (2, b'c' as u32)]);
    assert_eq!(
        merge_sequence.slots[2]
            .expect("tail node should exist")
            .prev,
        Some(0)
    );
    assert!(merge_sequence.slots[1].is_none());
}

#[test]
fn merge_sequence_repeated_splices_reuse_existing_capacity() {
    let mut merge_sequence = MergeSequence::new(b"aaaa");

    let first = merge_sequence.splice(0, 1, 256);
    let second = merge_sequence.splice(first, 2, 257);

    let slots = slots_and_tokens(&merge_sequence);

    assert_eq!(second, 0);
    assert_eq!(merge_sequence.slots.len(), 4);
    assert_eq!(slots, vec![(0, 257), (3, b'a' as u32)]);
    assert!(merge_sequence.slots[1].is_none());
    assert!(merge_sequence.slots[2].is_none());
}

#[test]
fn from_token_id_creates_single_node_merge_sequence() {
    let merge_sequence = MergeSequence::from_token_id(42);
    let slots: Vec<_> = merge_sequence.iter();

    assert_eq!(merge_sequence.head, Some(0));
    assert_eq!(merge_sequence.slots.len(), 1);
    assert_eq!(slots.len(), 1);
    assert_eq!(slots[0].0, 0);
    assert_eq!(slots[0].1.token_id, 42);
    assert_eq!(slots[0].1.prev, None);
    assert_eq!(slots[0].1.next, None);
}

#[test]
fn splice_on_two_node_merge_sequence_produces_single_live_node() {
    let mut merge_sequence = MergeSequence::new(b"ab");

    let merged_slot = merge_sequence.splice(0, 1, 300);
    let slots: Vec<_> = merge_sequence.iter();

    assert_eq!(merged_slot, 0);
    assert_eq!(merge_sequence.head, Some(0));
    assert_eq!(slots.len(), 1);
    assert_eq!(slots[0].0, 0);
    assert_eq!(slots[0].1.token_id, 300);
    assert_eq!(slots[0].1.prev, None);
    assert_eq!(slots[0].1.next, None);
    assert!(merge_sequence.slots[1].is_none());
}

#[test]
fn splice_updates_tail_when_merging_last_pair() {
    let mut merge_sequence = MergeSequence::new(b"abc");

    let merged_slot = merge_sequence.splice(1, 2, 500);
    let slots = slots_and_tokens(&merge_sequence);

    assert_eq!(merged_slot, 1);
    assert_eq!(slots, vec![(0, b'a' as u32), (1, 500)]);
    assert_eq!(
        merge_sequence.slots[0].expect("head should exist").next,
        Some(1)
    );
    let tail = merge_sequence.slots[1].expect("merged tail should exist");
    assert_eq!(tail.prev, Some(0));
    assert_eq!(tail.next, None);
    assert!(merge_sequence.slots[2].is_none());
}

#[test]
fn iter_follows_updated_links_after_multiple_splices() {
    let mut merge_sequence = MergeSequence::new(b"abcde");

    let first = merge_sequence.splice(1, 2, 600);
    let second = merge_sequence.splice(first, 3, 601);

    let slots = slots_and_tokens(&merge_sequence);

    assert_eq!(second, 1);
    assert_eq!(slots, vec![(0, b'a' as u32), (1, 601), (4, b'e' as u32)]);
    assert_eq!(
        merge_sequence.slots[0].expect("head should exist").next,
        Some(1)
    );
    assert_eq!(
        merge_sequence.slots[4].expect("tail should exist").prev,
        Some(1)
    );
    assert!(merge_sequence.slots[2].is_none());
    assert!(merge_sequence.slots[3].is_none());
}

#[test]
fn splice_keeps_head_when_merging_non_head_pair() {
    let mut merge_sequence = MergeSequence::new(b"abcd");

    merge_sequence.splice(2, 3, 700);
    let slots = slots_and_tokens(&merge_sequence);

    assert_eq!(merge_sequence.head, Some(0));
    assert_eq!(slots, vec![(0, b'a' as u32), (1, b'b' as u32), (2, 700)]);
    assert_eq!(
        merge_sequence.slots[1].expect("node 1 should exist").next,
        Some(2)
    );
    assert_eq!(
        merge_sequence.slots[2].expect("node 2 should exist").prev,
        Some(1)
    );
    assert_eq!(
        merge_sequence.slots[2].expect("node 2 should exist").next,
        None
    );
    assert!(merge_sequence.slots[3].is_none());
}
