use fast_bpe_rs::merge_candidate_buckets::MergeCandidateBuckets;

#[test]
fn returns_none_when_empty() {
    let buckets = MergeCandidateBuckets::default();
    assert!(buckets.best_token_id_pair().is_none());
    assert!(buckets.is_empty());
}

#[test]
fn tracks_highest_count_bucket_after_inserts() {
    let mut buckets = MergeCandidateBuckets::default();
    buckets.insert(2, (1, 2));
    buckets.insert(5, (4, 5));
    buckets.insert(5, (3, 8));

    assert_eq!(buckets.best_token_id_pair(), Some((3, 8)));
}

#[test]
fn updates_bucket_membership_when_count_changes() {
    let mut buckets = MergeCandidateBuckets::default();
    buckets.insert(3, (1, 1));
    buckets.insert(2, (2, 2));

    buckets.update_token_id_pair((2, 2), 2, 6);
    assert_eq!(buckets.best_token_id_pair(), Some((2, 2)));

    buckets.update_token_id_pair((2, 2), 6, 0);
    assert_eq!(buckets.best_token_id_pair(), Some((1, 1)));
}

#[test]
fn clears_all_state() {
    let mut buckets = MergeCandidateBuckets::default();
    buckets.insert(3, (9, 9));
    buckets.clear();

    assert!(buckets.is_empty());
    assert!(buckets.best_token_id_pair().is_none());
}

#[test]
fn emptied_middle_bucket_is_unlinked_and_its_slot_reused() {
    let mut buckets = MergeCandidateBuckets::default();
    buckets.insert(9, (1, 1));
    buckets.insert(5, (2, 2));
    buckets.insert(1, (3, 3));
    buckets.update_token_id_pair((2, 2), 5, 0);
    assert_eq!(buckets.best_token_id_pair(), Some((1, 1)));
    buckets.update_token_id_pair((1, 1), 9, 0);
    assert_eq!(buckets.best_token_id_pair(), Some((3, 3)));
    buckets.insert(7, (4, 4));
    buckets.insert(4, (5, 5));
    assert_eq!(buckets.best_token_id_pair(), Some((4, 4)));
    buckets.update_token_id_pair((4, 4), 7, 2);
    assert_eq!(buckets.best_token_id_pair(), Some((5, 5)));
    buckets.update_token_id_pair((5, 5), 4, 0);
    buckets.update_token_id_pair((4, 4), 2, 0);
    assert_eq!(buckets.best_token_id_pair(), Some((3, 3)));
    buckets.update_token_id_pair((3, 3), 1, 0);
    assert!(buckets.is_empty());
}

#[test]
fn ties_in_the_top_bucket_go_to_the_smallest_pair() {
    let mut buckets = MergeCandidateBuckets::default();
    buckets.insert(4, (7, 1));
    buckets.insert(4, (2, 9));
    buckets.insert(4, (2, 3));
    buckets.insert(3, (0, 0));
    assert_eq!(buckets.best_token_id_pair(), Some((2, 3)));
    buckets.update_token_id_pair((2, 3), 4, 3);
    assert_eq!(buckets.best_token_id_pair(), Some((2, 9)));
}
