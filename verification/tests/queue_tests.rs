use std::collections::HashMap;

use cid::Cid;
use fvm_ipld_bitfield::BitField;
use fvm_ipld_blockstore::MemoryBlockstore;
use fvm_kernel_core::quant::QuantSpec;
use fvm_kernel_core::queue::{is_due, storage_outcome, BitFieldQueue};

const NO_QUANT: QuantSpec = QuantSpec { unit: 1, offset: 0 };

fn set(ids: &[u64]) -> BitField {
    BitField::try_from_bits(ids.iter().copied()).unwrap()
}

fn ids(b: &BitField) -> Vec<u64> {
    b.iter().collect()
}

fn contents(q: &BitFieldQueue) -> Vec<(u64, Vec<u64>)> {
    let mut out = Vec::new();
    for k in q.epochs().unwrap() {
        out.push((k, ids(&q.bucket(k).unwrap().unwrap())));
    }
    out
}

#[test]
fn adds_values_to_empty_queue() {
    let store = MemoryBlockstore::default();
    let mut q = BitFieldQueue::empty(&store, NO_QUANT);
    q.add_to_queue_values(42, &[1, 2, 3, 4]).unwrap();
    assert_eq!(contents(&q), vec![(42, vec![1, 2, 3, 4])]);
}

#[test]
fn adds_bitfield_to_queue_and_merges_with_the_bucket() {
    let store = MemoryBlockstore::default();
    let mut q = BitFieldQueue::empty(&store, NO_QUANT);
    q.add_to_queue(7, &set(&[1, 3])).unwrap();
    q.add_to_queue(7, &set(&[2, 3, 9])).unwrap();
    q.add_to_queue(5, &set(&[4])).unwrap();
    assert_eq!(contents(&q), vec![(5, vec![4]), (7, vec![1, 2, 3, 9])]);
}

#[test]
fn quantizes_added_epochs_according_to_quantization_spec() {
    let store = MemoryBlockstore::default();
    let mut q = BitFieldQueue::empty(&store, QuantSpec { unit: 5, offset: 3 });
    for (epoch, id) in [(0i64, 0u64), (2, 2), (3, 3), (4, 4), (7, 7), (8, 8), (9, 9)] {
        q.add_to_queue_values(epoch, &[id]).unwrap();
    }
    assert_eq!(
        contents(&q),
        vec![(3, vec![0, 2, 3]), (8, vec![4, 7, 8]), (13, vec![9])]
    );
    assert_eq!(q.quant().unit, 5);
    assert_eq!(q.quant().offset, 3);
}

#[test]
fn adding_nothing_changes_nothing() {
    let store = MemoryBlockstore::default();
    let mut q = BitFieldQueue::empty(&store, NO_QUANT);
    q.add_to_queue(3, &BitField::new()).unwrap();
    q.add_to_queue_values(3, &[]).unwrap();
    q.add_to_queue(-3, &BitField::new()).unwrap();
    assert_eq!(contents(&q), vec![]);
}

#[test]
fn a_negative_bucket_key_is_a_fatal_error() {
    let store = MemoryBlockstore::default();
    let mut q = BitFieldQueue::empty(&store, QuantSpec { unit: 10, offset: 0 });
    q.add_to_queue_values(20, &[1]).unwrap();
    let e = q.add_to_queue_values(-11, &[1]).unwrap_err();
    assert!(e.is_fatal());
    let e = q.add_to_queue(i64::MAX, &set(&[1])).unwrap_err();
    assert!(e.is_fatal());
    assert_eq!(contents(&q), vec![(20, vec![1])]);
    // an epoch just below zero quantizes up to zero
    q.add_to_queue_values(-9, &[5]).unwrap();
    assert_eq!(contents(&q), vec![(0, vec![5]), (20, vec![1])]);
}

#[test]
fn an_identifier_out_of_range_is_a_fatal_error() {
    let store = MemoryBlockstore::default();
    let mut q = BitFieldQueue::empty(&store, NO_QUANT);
    let e = q.add_to_queue_values(1, &[4, u64::MAX]).unwrap_err();
    assert!(e.is_fatal());
    assert_eq!(contents(&q), vec![]);
}

#[test]
fn cut_compacts_the_remaining_ids() {
    let store = MemoryBlockstore::default();
    let mut q = BitFieldQueue::empty(&store, NO_QUANT);
    q.add_to_queue_values(4, &[1, 2, 3, 5]).unwrap();
    q.cut(&set(&[2, 5])).unwrap();
    // 1 stays, 2 and 5 leave, 3 moves down past the one removed id below it
    assert_eq!(contents(&q), vec![(4, vec![1, 2])]);
}

#[test]
fn cut_deletes_a_bucket_that_is_covered() {
    let store = MemoryBlockstore::default();
    let mut q = BitFieldQueue::empty(&store, NO_QUANT);
    q.add_to_queue_values(4, &[1, 2, 3, 5]).unwrap();
    q.cut(&set(&[1, 2, 3, 5])).unwrap();
    assert_eq!(contents(&q), vec![]);
}

#[test]
fn cut_elements() {
    let store = MemoryBlockstore::default();
    let mut q = BitFieldQueue::empty(&store, NO_QUANT);
    q.add_to_queue_values(2, &[1, 2, 3, 4, 9]).unwrap();
    q.add_to_queue_values(5, &[5, 6, 7]).unwrap();
    q.add_to_queue_values(7, &[8]).unwrap();
    q.cut(&set(&[2, 4, 5, 6, 8])).unwrap();
    // 3 -> 2, 9 -> 4; 7 -> 3; the bucket at 7 is gone
    assert_eq!(contents(&q), vec![(2, vec![1, 2, 4]), (5, vec![3])]);
}

#[test]
fn cut_with_an_empty_mask_changes_nothing() {
    let store = MemoryBlockstore::default();
    let mut q = BitFieldQueue::empty(&store, NO_QUANT);
    q.add_to_queue_values(2, &[0, 7]).unwrap();
    q.cut(&BitField::new()).unwrap();
    assert_eq!(contents(&q), vec![(2, vec![0, 7])]);
}

#[test]
fn pop_until_takes_buckets_up_to_the_bound() {
    let store = MemoryBlockstore::default();
    let mut q = BitFieldQueue::empty(&store, QuantSpec { unit: 10, offset: 0 });
    q.add_to_queue_values(10, &[1]).unwrap();
    q.add_to_queue_values(20, &[2]).unwrap();
    q.add_to_queue_values(30, &[3]).unwrap();

    let (popped, changed) = q.pop_until(5).unwrap();
    assert!(!changed);
    assert!(popped.is_empty());
    assert_eq!(contents(&q), vec![(10, vec![1]), (20, vec![2]), (30, vec![3])]);

    let (popped, changed) = q.pop_until(20).unwrap();
    assert!(changed);
    assert_eq!(ids(&popped), vec![1, 2]);
    assert_eq!(contents(&q), vec![(30, vec![3])]);

    let (popped, changed) = q.pop_until(29).unwrap();
    assert!(!changed);
    assert!(popped.is_empty());

    let (popped, changed) = q.pop_until(i64::MAX).unwrap();
    assert!(changed);
    assert_eq!(ids(&popped), vec![3]);
    assert_eq!(contents(&q), vec![]);
}

#[test]
fn pop_until_with_a_negative_bound_takes_nothing() {
    let store = MemoryBlockstore::default();
    let mut q = BitFieldQueue::empty(&store, NO_QUANT);
    q.add_to_queue_values(0, &[1]).unwrap();
    let (popped, changed) = q.pop_until(-1).unwrap();
    assert!(!changed);
    assert!(popped.is_empty());
    assert_eq!(contents(&q), vec![(0, vec![1])]);
    assert!(is_due(0, 0));
    assert!(!is_due(0, -1));
    assert!(!is_due(u64::MAX, i64::MAX));
    assert!(is_due(5, 5));
    assert!(!is_due(6, 5));
}

#[test]
fn merges_values_within_same_epoch() {
    let store = MemoryBlockstore::default();
    let mut q = BitFieldQueue::empty(&store, QuantSpec { unit: 5, offset: 3 });
    let entries = vec![
        (9i64, vec![9u64]),
        (2, vec![2, 4]),
        (0, vec![0, 2]),
        (8, vec![8]),
        (4, vec![]),
        (7, vec![7, 8]),
    ];
    q.add_entries_to_queue(&entries).unwrap();
    assert_eq!(
        contents(&q),
        vec![(3, vec![0, 2, 4]), (8, vec![7, 8]), (13, vec![9])]
    );
}

#[test]
fn add_many_gives_the_same_root_in_any_order() {
    let quant = QuantSpec { unit: 4, offset: 1 };
    let a = vec![
        (1i64, vec![1u64, 5]),
        (2, vec![6]),
        (9, vec![3]),
        (10, vec![2, 3]),
        (40, vec![11]),
    ];
    let mut b: Vec<(i64, Vec<u64>)> = a.iter().rev().cloned().collect();
    b.swap(1, 3);

    let store_a = MemoryBlockstore::default();
    let mut qa = BitFieldQueue::empty(&store_a, quant);
    qa.add_entries_to_queue(&a).unwrap();
    let store_b = MemoryBlockstore::default();
    let mut qb = BitFieldQueue::empty(&store_b, quant);
    qb.add_entries_to_queue(&b).unwrap();

    assert_eq!(contents(&qa), contents(&qb));
    assert_eq!(
        contents(&qa),
        vec![(1, vec![1, 5]), (5, vec![6]), (9, vec![3]), (13, vec![2, 3]), (41, vec![11])]
    );
    assert_eq!(qa.root().unwrap(), qb.root().unwrap());
}

#[test]
fn add_many_refuses_a_bad_entry_and_changes_nothing() {
    let store = MemoryBlockstore::default();
    let mut q = BitFieldQueue::empty(&store, QuantSpec { unit: 10, offset: 0 });
    q.add_to_queue_values(10, &[1]).unwrap();
    let e = q
        .add_entries_to_queue(&vec![(20, vec![2]), (-15, vec![3])])
        .unwrap_err();
    assert!(e.is_fatal());
    let e = q
        .add_entries_to_queue(&vec![(20, vec![2]), (30, vec![u64::MAX])])
        .unwrap_err();
    assert!(e.is_fatal());
    assert_eq!(contents(&q), vec![(10, vec![1])]);
    // an entry without identifiers is skipped, whatever its epoch
    q.add_entries_to_queue(&vec![(-15, vec![]), (20, vec![2])]).unwrap();
    assert_eq!(contents(&q), vec![(10, vec![1]), (20, vec![2])]);
}

#[test]
fn no_bucket_is_ever_empty() {
    let store = MemoryBlockstore::default();
    let mut q = BitFieldQueue::empty(&store, QuantSpec { unit: 3, offset: 1 });
    q.add_to_queue_values(1, &[0, 1]).unwrap();
    q.add_to_queue_values(5, &[2]).unwrap();
    q.add_entries_to_queue(&vec![(9, vec![3, 4]), (2, vec![5])]).unwrap();
    q.cut(&set(&[2, 3])).unwrap();
    q.pop_until(4).unwrap();
    q.cut(&set(&[0, 1])).unwrap();
    for (k, v) in contents(&q) {
        assert!(!v.is_empty());
        assert_eq!((k as i64 - 1).rem_euclid(3), 0);
    }
    assert_eq!(contents(&q), vec![(10, vec![0])]);
}

#[test]
fn a_saved_queue_loads_from_its_root() {
    let store = MemoryBlockstore::default();
    let quant = QuantSpec { unit: 2, offset: 0 };
    let root = {
        let mut q = BitFieldQueue::empty(&store, quant);
        q.add_to_queue_values(3, &[1, 2]).unwrap();
        q.add_to_queue_values(8, &[7]).unwrap();
        q.root().unwrap()
    };
    let mut q = BitFieldQueue::new(&store, &root, quant).unwrap();
    assert_eq!(contents(&q), vec![(4, vec![1, 2]), (8, vec![7])]);
    let (popped, changed) = q.pop_until(4).unwrap();
    assert!(changed);
    assert_eq!(ids(&popped), vec![1, 2]);
    assert_ne!(q.root().unwrap(), root);
}

#[test]
fn loading_a_root_that_is_not_stored_fails() {
    let store = MemoryBlockstore::default();
    assert!(BitFieldQueue::new(&store, &Cid::default(), NO_QUANT).is_err());
}

#[test]
fn a_storage_failure_is_fatal() {
    let r: Result<u8, fvm_ipld_amt::Error> = Err(fvm_ipld_amt::Error::OutOfRange(u64::MAX));
    let e = storage_outcome(r, "failed to set queue epoch".to_string()).unwrap_err();
    assert!(e.is_fatal());
    assert!(!e.is_recoverable());
    let r: Result<u8, fvm_ipld_amt::Error> = Ok(5);
    assert!(matches!(storage_outcome(r, "unused".to_string()), Ok(5)));
}

#[test]
fn a_loaded_queue_is_saved_under_the_root_it_was_loaded_from() {
    let store = MemoryBlockstore::default();
    let root = {
        let mut q = BitFieldQueue::empty(&store, NO_QUANT);
        q.add_to_queue_values(6, &[1, 9]).unwrap();
        q.root().unwrap()
    };
    let mut q = BitFieldQueue::new(&store, &root, NO_QUANT).unwrap();
    assert_eq!(q.root().unwrap(), root);
    assert_eq!(contents(&q), vec![(6, vec![1, 9])]);
    assert_eq!(q.root().unwrap(), root);
}

#[test]
fn the_root_stays_until_the_queue_changes() {
    let store = MemoryBlockstore::default();
    let mut q = BitFieldQueue::empty(&store, NO_QUANT);
    let empty_root = q.root().unwrap();
    assert_ne!(empty_root, Cid::default());
    assert_eq!(q.root().unwrap(), empty_root);
    q.add_to_queue_values(2, &[3]).unwrap();
    let root = q.root().unwrap();
    assert_ne!(root, empty_root);
    assert_eq!(q.root().unwrap(), root);
    assert_eq!(contents(&q), vec![(2, vec![3])]);
}

#[test]
fn add_many_without_identifiers_succeeds_and_changes_nothing() {
    let store = MemoryBlockstore::default();
    let mut q = BitFieldQueue::empty(&store, QuantSpec { unit: 10, offset: 0 });
    q.add_to_queue_values(10, &[1]).unwrap();
    let root = q.root().unwrap();
    q.add_entries_to_queue(&vec![]).unwrap();
    q.add_entries_to_queue(&vec![(-15, vec![]), (i64::MAX, vec![]), (20, vec![])])
        .unwrap();
    assert_eq!(contents(&q), vec![(10, vec![1])]);
    assert_eq!(q.root().unwrap(), root);
}

#[test]
fn what_changes_nothing_keeps_the_root() {
    let store = MemoryBlockstore::default();
    let mut q = BitFieldQueue::empty(&store, QuantSpec { unit: 10, offset: 0 });
    q.add_to_queue_values(10, &[1]).unwrap();
    q.add_to_queue_values(20, &[2]).unwrap();
    q.add_to_queue_values(30, &[3]).unwrap();
    let root = q.root().unwrap();
    let (popped, changed) = q.pop_until(5).unwrap();
    assert!(!changed && popped.is_empty());
    q.add_to_queue(40, &BitField::new()).unwrap();
    q.add_to_queue_values(40, &[]).unwrap();
    assert!(q.add_to_queue_values(-40, &[1]).is_err());
    assert!(q.add_to_queue_values(40, &[u64::MAX]).is_err());
    assert!(q.add_entries_to_queue(&vec![(-40, vec![1])]).is_err());
    assert_eq!(contents(&q), vec![(10, vec![1]), (20, vec![2]), (30, vec![3])]);
    assert_eq!(q.root().unwrap(), root);
}

#[test]
fn a_storage_failure_is_shown_as_its_context() {
    let r: Result<u8, fvm_ipld_amt::Error> = Err(fvm_ipld_amt::Error::OutOfRange(7));
    let e = storage_outcome(r, "failed to set queue epoch 7".to_string()).unwrap_err();
    let cause = e.into_cause();
    assert_eq!(cause.to_string(), "failed to set queue epoch 7");
    let chain: Vec<String> = cause.chain().map(|c| c.to_string()).collect();
    assert_eq!(chain.len(), 2);
    assert_eq!(chain[1], "index 7 out of range for the amt");
}

#[test]
fn add_many_from_a_mapping_merges_and_quantizes() {
    let store = MemoryBlockstore::default();
    let mut q = BitFieldQueue::empty(&store, QuantSpec { unit: 5, offset: 3 });
    let mut values: HashMap<i64, Vec<u64>> = HashMap::new();
    values.insert(9, vec![9]);
    values.insert(2, vec![2, 4]);
    values.insert(0, vec![0, 2]);
    values.insert(8, vec![8]);
    values.insert(4, vec![]);
    values.insert(7, vec![7, 8]);
    q.add_many_to_queue_values(&values).unwrap();
    assert_eq!(
        contents(&q),
        vec![(3, vec![0, 2, 4]), (8, vec![7, 8]), (13, vec![9])]
    );
}

#[test]
fn add_many_from_mappings_filled_in_different_orders_gives_one_root() {
    let quant = QuantSpec { unit: 4, offset: 1 };
    let pairs: Vec<(i64, Vec<u64>)> = (0..40).map(|i| (i * 3, vec![i as u64, 100 + i as u64])).collect();
    let mut a: HashMap<i64, Vec<u64>> = HashMap::new();
    for (k, v) in pairs.iter() {
        a.insert(*k, v.clone());
    }
    let mut b: HashMap<i64, Vec<u64>> = HashMap::with_capacity(1024);
    for (k, v) in pairs.iter().rev() {
        b.insert(*k, v.clone());
    }
    let store_a = MemoryBlockstore::default();
    let mut qa = BitFieldQueue::empty(&store_a, quant);
    qa.add_many_to_queue_values(&a).unwrap();
    let store_b = MemoryBlockstore::default();
    let mut qb = BitFieldQueue::empty(&store_b, quant);
    qb.add_many_to_queue_values(&b).unwrap();
    assert_eq!(contents(&qa), contents(&qb));
    assert_eq!(qa.root().unwrap(), qb.root().unwrap());
    assert_eq!(contents(&qa).len(), 30);
}

#[test]
fn add_many_from_a_mapping_refuses_a_bad_epoch_and_passes_an_empty_one() {
    let store = MemoryBlockstore::default();
    let mut q = BitFieldQueue::empty(&store, QuantSpec { unit: 10, offset: 0 });
    q.add_to_queue_values(10, &[1]).unwrap();
    let root = q.root().unwrap();
    let mut bad: HashMap<i64, Vec<u64>> = HashMap::new();
    bad.insert(20, vec![2]);
    bad.insert(-15, vec![3]);
    assert!(q.add_many_to_queue_values(&bad).unwrap_err().is_fatal());
    let mut nothing: HashMap<i64, Vec<u64>> = HashMap::new();
    nothing.insert(-15, vec![]);
    nothing.insert(20, vec![]);
    q.add_many_to_queue_values(&nothing).unwrap();
    q.add_many_to_queue_values(&HashMap::new()).unwrap();
    assert_eq!(contents(&q), vec![(10, vec![1])]);
    assert_eq!(q.root().unwrap(), root);
}
