//! Tests for the plain binary search tree.

use alloc_tree::bst::Bst;
use alloc_tree::Entry;
use alloc_tree::Error;
use rand::seq::SliceRandom;
use rand::Rng;
use std::collections::HashSet;

const BST_MAX_SIZE: usize = 4096;

#[test]
fn bst_fuzz_insert() {
    for _ in 0..100 {
        let mut bst: Bst<u32, BST_MAX_SIZE> = Bst::new();
        let mut rng = rand::thread_rng();
        let min = 1u32;
        let max = 100_000u32;

        let mut random_numbers = HashSet::new();

        while random_numbers.len() < BST_MAX_SIZE {
            let num = rng.gen_range(min..=max);
            random_numbers.insert(num);
        }

        let mut random_numbers: Vec<_> = random_numbers.into_iter().collect();
        random_numbers.shuffle(&mut rng);

        assert_eq!(random_numbers.len(), BST_MAX_SIZE);
        for num in random_numbers.iter() {
            assert!(bst.insert(*num).is_ok());
        }

        random_numbers.sort();

        let ordered_numbers = bst.traverse();
        assert_eq!(ordered_numbers, random_numbers);
    }
}

#[test]
fn bst_fuzz_search() {
    let mut bst: Bst<u32, BST_MAX_SIZE> = Bst::new();
    let mut rng = rand::thread_rng();
    let min = 50_000u32;
    let max = 100_000u32;

    let mut random_numbers = HashSet::new();
    while random_numbers.len() < BST_MAX_SIZE {
        let num = rng.gen_range(min..=max);
        random_numbers.insert(num);
    }

    let mut random_numbers: Vec<_> = random_numbers.into_iter().collect();
    random_numbers.shuffle(&mut rng);

    assert_eq!(random_numbers.len(), BST_MAX_SIZE);
    for num in random_numbers.iter() {
        assert!(bst.insert(*num).is_ok());
    }

    // Search for numbers that exist in the tree
    for _ in 0..100_000 {
        let num = random_numbers.choose(&mut rng).unwrap();
        assert!(bst.search(*num as u64).is_some());
    }

    // Search for numbers that do not exist in the tree
    for _ in 0..100_000 {
        let to_search = rng.gen_bool(0.5);
        let random_number = if to_search {
            rng.gen_range(0..=min - 1)
        } else {
            rng.gen_range(max + 1..=max + 50_000)
        };
        assert!(bst.search(random_number as u64).is_none());
    }
}

#[test]
fn bst_fuzz_delete() {
    let mut bst: Bst<u64, BST_MAX_SIZE> = Bst::new();
    let mut rng = rand::thread_rng();
    let min = 1u64;
    let max = 100_000u64;

    let mut random_numbers = HashSet::new();
    while random_numbers.len() < BST_MAX_SIZE {
        let num = rng.gen_range(min..=max);
        random_numbers.insert(num);
    }

    let mut random_numbers: Vec<_> = random_numbers.into_iter().collect();
    random_numbers.shuffle(&mut rng);

    assert_eq!(random_numbers.len(), BST_MAX_SIZE);
    for num in random_numbers.iter() {
        assert!(bst.insert(*num).is_ok());
    }

    // Delete all the numbers
    random_numbers.shuffle(&mut rng);
    while let Some(num) = random_numbers.pop() {
        match bst.delete(num) {
            Ok(_) => (),
            Err(e) => assert!(false, "{:?}", e),
        }
    }

    assert_eq!(bst.len(), 0);
}

#[test]
fn test_delete_simple() {
    // Deleting a node with a single child splices the child up; deleting a
    // node with no children unlinks it from its parent.
    //
    //        [50]      [50]
    //        /          /
    //      [10]   ->  [05]   ->   [50]
    //       /
    //     [05]
    let mut bst: Bst<u64, 16> = Bst::new();
    bst.insert(50).unwrap();
    bst.insert(10).unwrap();
    bst.insert(5).unwrap();

    // Delete a node with a single child.
    bst.delete(10).unwrap();
    assert_eq!(bst.left_of(50), Some(5));
    assert_eq!(bst.parent_of(5), Some(50));

    // Delete a node with no children.
    bst.delete(5).unwrap();
    assert_eq!(bst.left_of(50), None);
}

#[test]
fn bst_two_children_delete_scenario() {
    // Build a plain tree with keys 50, 10, 75, 70, 85 (50 is root). Deleting
    // 50 replaces the root with 70, the in-order successor (the left-most
    // node of the right subtree rooted at 75): root = 70 with left child 10
    // and right child 75; 75's left child becomes empty, its right child
    // remains 85.
    let mut bst: Bst<u64, 16> = Bst::new();
    bst.insert(50).unwrap();
    bst.insert(10).unwrap();
    bst.insert(75).unwrap();
    bst.insert(70).unwrap();
    bst.insert(85).unwrap();
    assert_eq!(bst.head(), Some(50));
    assert_eq!(bst.left_of(75), Some(70));

    bst.delete(50).unwrap();
    assert_eq!(bst.head(), Some(70));
    assert_eq!(bst.left_of(70), Some(10));
    assert_eq!(bst.right_of(70), Some(75));
    assert_eq!(bst.left_of(75), None);
    assert_eq!(bst.right_of(75), Some(85));
    assert_eq!(bst.parent_of(10), Some(70));
    assert_eq!(bst.parent_of(75), Some(70));
}

#[test]
fn bst_round_trip() {
    let mut bst: Bst<u64, 8> = Bst::new();
    bst.insert(20).unwrap();
    bst.insert(30).unwrap();
    let before = bst.len();

    assert!(bst.search(25).is_none());
    bst.insert(25).unwrap();
    assert_eq!(bst.search(25), Some(25));
    bst.delete(25).unwrap();
    assert!(bst.search(25).is_none());
    assert_eq!(bst.len(), before);
}

#[test]
fn bst_error_cases() {
    let mut bst: Bst<u64, 3> = Bst::new();
    assert!(bst.insert(1).is_ok());
    assert!(bst.insert(2).is_ok());
    assert!(bst.insert(3).is_ok());

    // Pool exhausted: a fourth distinct key is rejected and the count stays
    // at the capacity.
    assert_eq!(bst.insert(4), Err(Error::OutOfSpace));
    assert_eq!(bst.len(), 3);

    // Duplicate key on a tree that still has room.
    let mut small: Bst<u64, 8> = Bst::new();
    small.insert(7).unwrap();
    assert_eq!(small.insert(7), Err(Error::AlreadyExists));
    assert_eq!(small.len(), 1);
    assert_eq!(small.traverse(), vec![7]);

    // Deleting an absent key leaves the tree unchanged.
    assert_eq!(small.delete(8), Err(Error::NotFound));
    assert_eq!(small.len(), 1);
    assert_eq!(small.traverse(), vec![7]);
}

#[test]
fn bst_traverse_sorted() {
    let mut bst: Bst<u64, 16> = Bst::new();
    for k in [8u64, 3, 10, 1, 6, 14, 4, 7, 13] {
        bst.insert(k).unwrap();
    }
    assert_eq!(bst.traverse(), vec![1, 3, 4, 6, 7, 8, 10, 13, 14]);
    assert_eq!(bst.occupied_count(), 9);
}

#[test]
fn bst_slot_recycling() {
    // Fill the pool, release a slot by deleting, and reuse it.
    let mut bst: Bst<u64, 4> = Bst::new();
    for k in [2u64, 1, 3, 4] {
        bst.insert(k).unwrap();
    }
    assert_eq!(bst.insert(9), Err(Error::OutOfSpace));
    bst.delete(1).unwrap();
    assert!(bst.insert(9).is_ok());
    assert_eq!(bst.traverse(), vec![2, 3, 4, 9]);
    assert_eq!(bst.occupied_count(), 4);
}

#[test]
fn bst_composite_payload() {
    // A composite record is ordered by its derived key; two payloads are
    // equal for tree purposes exactly when their projections are equal.
    let mut bst: Bst<Entry, 8> = Bst::new();
    bst.insert(Entry { key: 5, value: 100 }).unwrap();
    bst.insert(Entry { key: 2, value: 200 }).unwrap();
    assert_eq!(bst.search(5), Some(Entry { key: 5, value: 100 }));
    assert_eq!(
        bst.insert(Entry { key: 5, value: 999 }),
        Err(Error::AlreadyExists)
    );
    assert_eq!(bst.search(5), Some(Entry { key: 5, value: 100 }));
    bst.delete(Entry { key: 5, value: 0 }).unwrap();
    assert!(bst.search(5).is_none());
}
