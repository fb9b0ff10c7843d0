use hash_trie::results::HashTrieError;
use hash_trie::{DefaultHashTrieSet, HashTrieSet};
use rand::{seq::SliceRandom, Rng};
use std::collections::hash_set::HashSet;
use std::vec::Vec;

#[test]
fn hash_trie_test_insert_find_remove_10000() {
    let mut rng = rand::thread_rng();
    let mut hash_set = HashSet::new();
    let mut hash_trie = HashTrieSet::<i32, fnv::FnvHasher>::new();

    for _ in 0..10000 {
        let v = rng.gen_range(0..50000);
        let inserted = hash_set.insert(v);
        match hash_trie.insert(v) {
            Ok(ht) => {
                assert!(inserted);
                hash_trie = ht;
            },
            Err(reference) => assert_eq!(*reference, v),
        };
    }

    for v in 0..50000 {
        let found = hash_set.contains(&v);
        match hash_trie.find(&v) {
            Ok(found_v) => {
                assert_eq!(v, *found_v);
                assert!(found);
            },
            Err(_) => assert!(!found),
        }
    }

    let mut values: Vec<i32> = (1..50000).collect::<Vec<i32>>();
    values.shuffle(&mut rng);
    for v in values {
        let found = hash_set.contains(&v);
        match hash_trie.remove(&v) {
            Ok((ht, found_v)) => {
                assert_eq!(v, *found_v);
                assert!(found);
                hash_trie = ht;
            },
            Err(_) => assert!(!found)
        }
    }
}

#[test]
fn set_insert_find_remove() {
    let set = DefaultHashTrieSet::<u64>::new();
    assert_eq!(set.size(), 0);
    assert_eq!(set.find(&5), Err(HashTrieError::NotFound));
    let set = set.insert(5).unwrap();
    assert_eq!(set.size(), 1);
    assert_eq!(set.find(&5), Ok(&5));
    // Inserting a present value fails with the value there.
    assert_eq!(*set.insert(5).map(|_| ()).unwrap_err(), 5);
    let set2 = set.insert(6).unwrap();
    assert_eq!(set2.size(), 2);
    // The set the insertion was made on is unchanged.
    assert_eq!(set.find(&6), Err(HashTrieError::NotFound));
    // Removing what was inserted gives back the set from before.
    let (set3, v) = set2.remove(&6).unwrap();
    assert_eq!(*v, 6);
    assert_eq!(set3.size(), 1);
    assert_eq!(set3.find(&6), Err(HashTrieError::NotFound));
    assert_eq!(set3.find(&5), Ok(&5));
    assert_eq!(set3.remove(&6).map(|_| ()).unwrap_err(), HashTrieError::NotFound);
    let (empty, _) = set3.remove(&5).unwrap();
    assert_eq!(empty.size(), 0);
    let cloned = set2.clone();
    assert_eq!(cloned.size(), 2);
}

#[test]
fn set_default_is_empty() {
    let set: DefaultHashTrieSet<u8> = Default::default();
    assert_eq!(set.size(), 0);
    assert!(matches!(set.find(&1), Err(HashTrieError::NotFound)));
    let set = set.insert(1).ok().unwrap();
    assert_eq!(set.size(), 1);
}
