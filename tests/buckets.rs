use std::collections::HashSet;

use exp_viz::buckets::{buckets_for_length, Bucket, BucketList};

fn pairs(flat: &[u32]) -> Vec<(u32, u32)> {
    flat.chunks(2).map(|p| (p[0], p[1])).collect()
}

#[test]
fn bucket_counts_round_up_and_add_one() {
    assert_eq!(buckets_for_length(10_000, 1000), 11);
    assert_eq!(buckets_for_length(10_001, 1000), 12);
    assert_eq!(buckets_for_length(0, 1000), 1);
    assert_eq!(buckets_for_length(u32::MAX, 1), u32::MAX as u64 + 1);
}

#[test]
fn new_list_is_empty() {
    let bl = BucketList::new(&vec![5000, 3000], 1000);
    assert!(bl.flat_list().is_empty());
}

#[test]
fn insert_is_idempotent() {
    let mut bl = BucketList::new(&vec![5000], 1000);
    bl.insert(0, 2);
    bl.insert(0, 2);
    assert_eq!(bl.flat_list(), vec![0, 2]);
}

#[test]
fn flat_list_is_sorted_by_chromosome_then_bucket() {
    let mut bl = BucketList::new(&vec![5000, 3000, 8000], 1000);
    bl.insert(2, 1);
    bl.insert(0, 4);
    bl.insert(1, 0);
    bl.insert(0, 0);
    bl.insert(2, 8);
    assert_eq!(bl.flat_list(), vec![0, 0, 0, 4, 1, 0, 2, 1, 2, 8]);
}

#[test]
fn insert_from_matches_hash_set() {
    let input: Vec<Bucket> = [(1, 3), (0, 5), (1, 3), (2, 0), (0, 5), (0, 1), (2, 9)]
        .iter()
        .map(|&(chrom, idx)| Bucket { chrom, idx })
        .collect();
    let mut bl = BucketList::new(&vec![6000, 4000, 9000], 1000);
    bl.insert_from(&input);
    let listed = pairs(&bl.flat_list());
    let reference: HashSet<(u32, u32)> = input.iter().map(|b| (b.chrom, b.idx)).collect();
    let got: HashSet<(u32, u32)> = listed.iter().cloned().collect();
    assert_eq!(got, reference);
    assert_eq!(listed.len(), reference.len());
    let mut sorted = listed.clone();
    sorted.sort();
    assert_eq!(listed, sorted);
}

#[test]
fn last_bucket_of_a_chromosome_is_usable() {
    let mut bl = BucketList::new(&vec![10_000], 1000);
    bl.insert(0, 10);
    assert_eq!(bl.flat_list(), vec![0, 10]);
}

#[test]
fn duplicate_is_an_independent_copy() {
    let mut proto = BucketList::new(&vec![4000, 2000], 1000);
    proto.insert(1, 1);
    let mut copy = proto.duplicate();
    copy.insert(0, 3);
    assert_eq!(proto.flat_list(), vec![1, 1]);
    assert_eq!(copy.flat_list(), vec![0, 3, 1, 1]);
}
