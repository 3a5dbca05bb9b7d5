use pfaffian::memo::{hash_indices, same_indices, Memo};

#[test]
fn a_new_table_remembers_nothing() {
    let memo: Memo<i64> = Memo::new();
    assert_eq!(memo.get(&[]), None);
    assert_eq!(memo.get(&[0]), None);
    assert_eq!(memo.get(&[3, 1, 2]), None);
}

#[test]
fn what_was_put_in_is_found() {
    let mut memo: Memo<i64> = Memo::new();
    memo.insert(&[2, 3], 7);
    assert_eq!(memo.get(&[2, 3]), Some(7));
    assert_eq!(memo.get(&[2]), None);
    assert_eq!(memo.get(&[2, 3, 4]), None);
    memo.insert(&[2, 3, 4], -1);
    assert_eq!(memo.get(&[2, 3]), Some(7));
    assert_eq!(memo.get(&[2, 3, 4]), Some(-1));
}

#[test]
fn the_order_of_a_list_counts() {
    let mut memo: Memo<i64> = Memo::new();
    memo.insert(&[1, 2], 10);
    assert_eq!(memo.get(&[2, 1]), None);
    memo.insert(&[2, 1], 20);
    assert_eq!(memo.get(&[1, 2]), Some(10));
    assert_eq!(memo.get(&[2, 1]), Some(20));
}

#[test]
fn a_second_value_takes_the_place_of_the_first() {
    let mut memo: Memo<i64> = Memo::new();
    memo.insert(&[5, 6], 1);
    memo.insert(&[7, 8], 2);
    memo.insert(&[5, 6], 3);
    assert_eq!(memo.get(&[5, 6]), Some(3));
    assert_eq!(memo.get(&[7, 8]), Some(2));
}

#[test]
fn lists_of_one_bucket_are_told_apart() {
    // The empty list and the lists of zeros all have the bucket number 0.
    assert_eq!(hash_indices(&[]), 0);
    assert_eq!(hash_indices(&[0]), 0);
    assert_eq!(hash_indices(&[0, 0]), 0);
    let mut memo: Memo<i64> = Memo::new();
    memo.insert(&[0], 1);
    assert_eq!(memo.get(&[]), None);
    assert_eq!(memo.get(&[0, 0]), None);
    memo.insert(&[], 2);
    memo.insert(&[0, 0], 3);
    assert_eq!(memo.get(&[0]), Some(1));
    assert_eq!(memo.get(&[]), Some(2));
    assert_eq!(memo.get(&[0, 0]), Some(3));
    memo.insert(&[0], 4);
    assert_eq!(memo.get(&[0]), Some(4));
    assert_eq!(memo.get(&[]), Some(2));
    assert_eq!(memo.get(&[0, 0]), Some(3));
}

#[test]
fn bucket_numbers_follow_the_polynomial() {
    assert_eq!(hash_indices(&[1]), 1);
    assert_eq!(hash_indices(&[1, 2]), 1_000_005);
    assert_eq!(hash_indices(&[1, 2, 3]), 1_000_005 * 1_000_003 + 3);
    assert_eq!(hash_indices(&[2, 1]), 2_000_007);
    let long: Vec<usize> = (0..40).collect();
    let mut expected: u64 = 0;
    for k in 0..40u64 {
        expected = expected.wrapping_mul(1_000_003).wrapping_add(k);
    }
    assert_eq!(hash_indices(&long), expected);
}

#[test]
fn lists_are_compared_index_by_index() {
    assert!(same_indices(&[], &[]));
    assert!(same_indices(&[4, 2, 9], &[4, 2, 9]));
    assert!(!same_indices(&[4, 2, 9], &[4, 2]));
    assert!(!same_indices(&[4, 2], &[4, 2, 9]));
    assert!(!same_indices(&[4, 2, 9], &[4, 9, 2]));
    assert!(!same_indices(&[], &[0]));
}

#[test]
fn many_lists_are_remembered() {
    let mut memo: Memo<u32> = Memo::new();
    for a in 0..30usize {
        for b in 0..30usize {
            memo.insert(&[a, b], (a * 100 + b) as u32);
        }
    }
    for a in 0..30usize {
        for b in 0..30usize {
            assert_eq!(memo.get(&[a, b]), Some((a * 100 + b) as u32));
        }
    }
    assert_eq!(memo.get(&[30, 0]), None);
}
