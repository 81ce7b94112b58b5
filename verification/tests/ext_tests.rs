use graphrs::ext::hashset::HashSetExt;
use graphrs::ext::iterator::{chunk_by_count, unique_by_no_hash};
use std::collections::HashMap;
use graphrs::ext::vec::VecExt;
use std::collections::HashSet;

#[test]
fn test_without_1() {
    let hs1: HashSet<i32> = vec![1, 2, 3].into_iter().collect();
    let hs2 = hs1.without(&2);
    assert_eq!(hs2.len(), 2);
    let mut v: Vec<i32> = hs2.into_iter().collect();
    v.sort();
    assert_eq!(v, vec![1, 3]);
}

#[test]
fn test_to_hashset_1() {
    let result: HashSet<i32> = vec![1, 1, 2, 3].to_hashset();
    assert_eq!(result.len(), 3);
    assert!(result.contains(&1));
    assert!(result.contains(&2));
    assert!(result.contains(&3));
}

#[test]
fn without_missing_value_keeps_set() {
    let hs1: HashSet<u64> = vec![4, 5].into_iter().collect();
    let hs2 = hs1.without(&9);
    assert_eq!(hs2, hs1);
}

#[test]
fn test_group_by_count_1() {
    let mut data = vec![1, 3, -2, -2, 1, 0, 1, 2];
    data.sort();
    let result: HashMap<i32, usize> = chunk_by_count(&data).into_iter().collect();
    assert_eq!(result.get(&-2).unwrap(), &2);
    assert_eq!(result.get(&0).unwrap(), &1);
    assert_eq!(result.get(&1).unwrap(), &3);
    assert_eq!(result.get(&2).unwrap(), &1);
}

#[test]
fn chunk_by_count_keeps_runs_in_order() {
    let data: Vec<u64> = vec![5, 5, 2, 5];
    assert_eq!(chunk_by_count(&data), vec![(5, 2), (2, 1), (5, 1)]);
    let empty: Vec<u64> = vec![];
    assert!(chunk_by_count(&empty).is_empty());
}

#[test]
fn unique_by_no_hash_ends_at_a_repeated_key() {
    let items = vec![10u32, 20, 30, 40];
    assert_eq!(unique_by_no_hash(&items, &vec![1, 2, 1, 3]), vec![10, 20]);
    assert_eq!(unique_by_no_hash(&items, &vec![1, 2, 3, 4]), vec![10, 20, 30, 40]);
    assert_eq!(unique_by_no_hash::<u32>(&vec![], &vec![]), Vec::<u32>::new());
}
