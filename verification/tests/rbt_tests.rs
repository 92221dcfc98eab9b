//! Tests for the red-black balanced tree.

use alloc_tree::rbt::Rbt;
use alloc_tree::Entry;
use alloc_tree::Error;
use rand::seq::SliceRandom;
use rand::Rng;
use std::collections::HashSet;

const RBT_MAX_SIZE: usize = 0x1000;

#[test]
fn simple_test() {
    let mut rbt: Rbt<u32, RBT_MAX_SIZE> = Rbt::new();
    assert!(rbt.insert(5).is_ok());
    assert_eq!(rbt.len(), 1);
    assert!(rbt.insert(3).is_ok());
    assert!(rbt.insert(7).is_ok());
    assert!(rbt.insert(2).is_ok());
    assert!(rbt.insert(6).is_ok());
    assert!(rbt.insert(8).is_ok());
    assert!(rbt.insert(9).is_ok());
    assert!(rbt.insert(10).is_ok());
    assert_eq!(rbt.len(), 8);

    let values = rbt.traverse();
    println!("{:?}", values);
    assert_eq!(values, vec![2, 3, 5, 6, 7, 8, 9, 10]);
}

#[test]
fn test_case_3() {
    // Update colors when parent and uncle nodes are red.
    //     [17B]                  [17B]
    //      /  \                  /   \
    //   [09B] [19B] -------->  [09B] [19R] <- Updated
    //         /   \                   /  \
    //       [18R] [75R]  Updated -> [18B] [75B] <- Updated
    //               \                       \
    //               [81R]                  [81R]
    let mut rbt: Rbt<u32, RBT_MAX_SIZE> = Rbt::new();
    rbt.insert(17).unwrap();

    // Head should be black
    assert!(rbt.is_black(17));

    // Insert a node to the right, should be red
    rbt.insert(19).unwrap();
    assert!(rbt.is_black(17));
    assert_eq!(rbt.right_of(17), Some(19));
    assert!(rbt.is_red(19));

    // Ensure no red-reds
    rbt.insert(9).unwrap();
    rbt.insert(18).unwrap();
    rbt.insert(75).unwrap();
    assert!(rbt.is_black(17));
    assert_eq!(rbt.right_of(17), Some(19));
    assert!(rbt.is_black(19));
    assert_eq!(rbt.left_of(19), Some(18));
    assert!(rbt.is_red(18));
    assert_eq!(rbt.right_of(19), Some(75));
    assert!(rbt.is_red(75));

    // Adding a node off of 75 should cause a color change
    rbt.insert(81).unwrap();
    assert!(rbt.is_black(17));
    assert_eq!(rbt.right_of(17), Some(19));
    assert!(rbt.is_red(19));
    assert_eq!(rbt.left_of(19), Some(18));
    assert!(rbt.is_black(18));
    assert_eq!(rbt.right_of(19), Some(75));
    assert!(rbt.is_black(75));
    assert_eq!(rbt.right_of(75), Some(81));
    assert!(rbt.is_red(81));
}

#[test]
fn test_case_4() {
    // Parent node is red, uncle node is black, the inserted node is the
    // inner grandchild: a double rotation is required.
    //
    // Final expected state:
    //          [17B]
    //          /   \
    //       [09B] [24B]
    //             /   \
    //           [19R] [75R]
    let mut rbt: Rbt<u32, RBT_MAX_SIZE> = Rbt::new();
    rbt.insert(17).unwrap();
    rbt.insert(9).unwrap();
    rbt.insert(19).unwrap();
    rbt.insert(75).unwrap();
    rbt.insert(24).unwrap();

    // Validate head (17)
    assert_eq!(rbt.head(), Some(17));
    assert!(rbt.is_black(17));

    // Validate left child (9)
    assert_eq!(rbt.left_of(17), Some(9));
    assert!(rbt.is_black(9));
    assert_eq!(rbt.parent_of(9), Some(17));

    // Validate right child (24)
    assert_eq!(rbt.right_of(17), Some(24));
    assert!(rbt.is_black(24));
    assert_eq!(rbt.parent_of(24), Some(17));

    // Validate right child's left child (19)
    assert_eq!(rbt.left_of(24), Some(19));
    assert!(rbt.is_red(19));
    assert_eq!(rbt.parent_of(19), Some(24));

    // Validate right child's right child (75)
    assert_eq!(rbt.right_of(24), Some(75));
    assert!(rbt.is_red(75));
}

#[test]
fn test_delete_from_storage() {
    let mut rbt: Rbt<u32, 10> = Rbt::new();
    rbt.insert(5).unwrap();
    rbt.insert(3).unwrap();
    assert_eq!(rbt.len(), 2);
    assert_eq!(rbt.occupied_count(), 2);
    rbt.delete(5).unwrap();
    assert_eq!(rbt.len(), 1);
    assert_eq!(rbt.occupied_count(), 1);
    rbt.delete(3).unwrap();
    assert_eq!(rbt.len(), 0);
    assert_eq!(rbt.occupied_count(), 0);
}

#[test]
fn rbt_fuzz_insert() {
    for _ in 0..100 {
        let mut rbt: Rbt<u32, RBT_MAX_SIZE> = Rbt::new();
        let mut rng = rand::thread_rng();
        let min = 1u32;
        let max = 100_000u32;

        let mut random_numbers = HashSet::new();

        while random_numbers.len() < RBT_MAX_SIZE - 1 {
            let num = rng.gen_range(min..=max);
            random_numbers.insert(num);
        }

        let mut random_numbers: Vec<_> = random_numbers.into_iter().collect();
        random_numbers.shuffle(&mut rng);

        assert_eq!(random_numbers.len(), RBT_MAX_SIZE - 1);
        for num in random_numbers.iter() {
            assert!(rbt.insert(*num).is_ok());
        }

        random_numbers.sort();

        let ordered_numbers = rbt.traverse();
        assert_eq!(ordered_numbers, random_numbers);
    }
}

#[test]
fn rbt_fuzz_delete() {
    let mut rbt: Rbt<u32, RBT_MAX_SIZE> = Rbt::new();
    let mut rng = rand::thread_rng();
    let min = 1u32;
    let max = 100_000u32;

    let mut random_numbers = HashSet::new();
    while random_numbers.len() < RBT_MAX_SIZE {
        let num = rng.gen_range(min..=max);
        random_numbers.insert(num);
    }

    let mut random_numbers: Vec<_> = random_numbers.into_iter().collect();
    random_numbers.shuffle(&mut rng);

    assert_eq!(random_numbers.len(), RBT_MAX_SIZE);
    for num in random_numbers.iter() {
        assert!(rbt.insert(*num).is_ok());
    }

    // Delete all the numbers
    random_numbers.shuffle(&mut rng);
    while let Some(num) = random_numbers.pop() {
        assert!(rbt.delete(num).is_ok());
    }
}

#[test]
fn rbt_fuzz_search() {
    let mut rbt: Rbt<u32, RBT_MAX_SIZE> = Rbt::new();
    let mut rng = rand::thread_rng();
    let min = 1u32;
    let max = 100_000u32;

    let mut random_numbers = HashSet::new();
    while random_numbers.len() < RBT_MAX_SIZE {
        let num = rng.gen_range(min..=max);
        random_numbers.insert(num);
    }

    let mut random_numbers: Vec<_> = random_numbers.into_iter().collect();
    random_numbers.shuffle(&mut rng);

    assert_eq!(random_numbers.len(), RBT_MAX_SIZE);
    for num in random_numbers.iter() {
        assert!(rbt.insert(*num).is_ok());
    }

    // Search for numbers that exist in the tree
    for _ in 0..100_000 {
        let num = random_numbers.choose(&mut rng).unwrap();
        assert!(rbt.search(*num as u64).is_some());
    }

    // Search for numbers that do not exist in the tree
    for _ in 0..100_000 {
        let to_search = rng.gen_bool(0.5);
        let random_number = if to_search {
            rng.gen_range(0..=min - 1)
        } else {
            rng.gen_range(max + 1..=max + 50_000)
        };
        assert!(rbt.search(random_number as u64).is_none());
    }
}

#[test]
fn rbt_out_of_space() {
    // Filling the pool and inserting one more distinct key fails with
    // OutOfSpace and leaves the element count at the capacity.
    let mut rbt: Rbt<u64, 4> = Rbt::new();
    for k in [10u64, 20, 30, 40] {
        assert!(rbt.insert(k).is_ok());
    }
    assert_eq!(rbt.insert(50), Err(Error::OutOfSpace));
    assert_eq!(rbt.len(), 4);
    assert_eq!(rbt.traverse(), vec![10, 20, 30, 40]);
}

#[test]
fn rbt_duplicate_and_absent() {
    let mut rbt: Rbt<u64, 8> = Rbt::new();
    rbt.insert(4).unwrap();
    rbt.insert(2).unwrap();
    rbt.insert(6).unwrap();

    // Inserting a key already present fails and leaves the tree unchanged.
    assert_eq!(rbt.insert(4), Err(Error::AlreadyExists));
    assert_eq!(rbt.len(), 3);
    assert_eq!(rbt.traverse(), vec![2, 4, 6]);

    // Deleting an absent key fails and leaves the tree unchanged.
    assert_eq!(rbt.delete(5), Err(Error::NotFound));
    assert_eq!(rbt.len(), 3);
    assert_eq!(rbt.traverse(), vec![2, 4, 6]);
}

#[test]
fn rbt_round_trip() {
    let mut rbt: Rbt<u64, 16> = Rbt::new();
    for k in [50u64, 25, 75, 12, 37] {
        rbt.insert(k).unwrap();
    }
    let before = rbt.len();

    assert!(rbt.search(30).is_none());
    rbt.insert(30).unwrap();
    assert_eq!(rbt.search(30), Some(30));
    rbt.delete(30).unwrap();
    assert!(rbt.search(30).is_none());
    assert_eq!(rbt.len(), before);
}

#[test]
fn rbt_slot_recycling() {
    // Slots released by deletes go back to the pool and are handed out
    // again.
    let mut rbt: Rbt<u64, 3> = Rbt::new();
    for k in [2u64, 1, 3] {
        rbt.insert(k).unwrap();
    }
    assert_eq!(rbt.insert(9), Err(Error::OutOfSpace));
    rbt.delete(1).unwrap();
    assert!(rbt.insert(9).is_ok());
    assert_eq!(rbt.traverse(), vec![2, 3, 9]);
    assert_eq!(rbt.occupied_count(), 3);
}

#[test]
fn rbt_composite_payload() {
    let mut rbt: Rbt<Entry, 8> = Rbt::new();
    rbt.insert(Entry { key: 5, value: 100 }).unwrap();
    rbt.insert(Entry { key: 2, value: 200 }).unwrap();
    assert_eq!(rbt.search(5), Some(Entry { key: 5, value: 100 }));
    assert_eq!(
        rbt.insert(Entry { key: 5, value: 999 }),
        Err(Error::AlreadyExists)
    );
    rbt.delete(Entry { key: 2, value: 0 }).unwrap();
    assert!(rbt.search(2).is_none());
}

#[test]
fn rbt_delete_keeps_balance_observables() {
    // After a mix of inserts and deletes the traversal stays sorted, the
    // root stays black, and searches agree with membership.
    let mut rbt: Rbt<u64, 64> = Rbt::new();
    for k in 1u64..=40 {
        rbt.insert(k).unwrap();
    }
    for k in [1u64, 3, 5, 7, 9, 20, 22, 24, 40, 39, 38] {
        rbt.delete(k).unwrap();
    }
    let remaining = rbt.traverse();
    let expected: Vec<u64> = (1u64..=40)
        .filter(|k| ![1u64, 3, 5, 7, 9, 20, 22, 24, 40, 39, 38].contains(k))
        .collect();
    assert_eq!(remaining, expected);
    let root = rbt.head().unwrap();
    assert!(rbt.is_black(root));
    for k in expected.iter() {
        assert_eq!(rbt.search(*k), Some(*k));
    }
    assert!(rbt.search(5).is_none());
}
