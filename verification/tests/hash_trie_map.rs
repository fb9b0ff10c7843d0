use hash_trie::hashing::HasherBv;
use hash_trie::results::{HashTrieError, MapJointTransformResult, MapTransformResult, MapTransmuteResult, SetTransmuteResult};
use hash_trie::transformations::{
    new_map_joint_transform_generic, new_map_joint_transform_removed, new_map_joint_transform_unchangedl,
    new_map_joint_transform_unchangedlr, new_map_transform_generic, new_map_transform_removed,
    new_map_transform_transmute_generic, new_map_transform_unchanged, new_map_transmute_generic, new_map_transmute_removed,
    new_map_transmute_transform_generic, new_map_transmute_transmute_generic, new_map_transmute_transmute_removed,
    new_set_transmute_removed, new_set_transmute_transmute_generic,
};
use hash_trie::{DefaultHashTrieMap, DefaultHashTrieSet, HashTrieMap, ParallelismStrategy};
use rand::Rng;
use std::cell::Cell;
use std::collections::{HashMap, HashSet};

type TransformFn = fn(&i32, &i32) -> MapTransformResult<i32, i32>;
type JointFn = fn(&i32, &i32, &i32, &i32) -> MapJointTransformResult<i32, i32>;

/// Every key hashes alike: all entries share one list.
struct Constant;

impl HasherBv<u64, i32> for Constant {
    fn hash_of(_value: i32) -> u64 {
        7
    }

    fn hash(_value: &i32) -> u64 {
        7
    }
}

/// Three hashes only: lists at three positions of the root.
struct Mod3;

impl HasherBv<u64, i32> for Mod3 {
    fn hash_of(value: i32) -> u64 {
        (value as u64) % 3
    }

    fn hash(value: &i32) -> u64 {
        Self::hash_of(*value)
    }
}

/// Hashes that agree on their low chunks: entries lie deep in the trie.
struct Deep;

impl HasherBv<u64, i32> for Deep {
    fn hash_of(value: i32) -> u64 {
        (value as u32 as u64) << 40
    }

    fn hash(value: &i32) -> u64 {
        Self::hash_of(*value)
    }
}

fn build<M: HasherBv<u64, i32>>(keys: &[i32]) -> HashTrieMap<i32, i32, M> {
    let mut map = HashTrieMap::<i32, i32, M>::new();
    for k in keys {
        map = map.insert(*k, *k, true).unwrap().0;
    }
    map
}

fn contents<M: HasherBv<u64, i32>>(map: &HashTrieMap<i32, i32, M>) -> HashMap<i32, i32> {
    let seen = Cell::new(Vec::new());
    map.visit(|k: &i32, v: &i32| {
        let mut s = seen.take();
        s.push((*k, *v));
        seen.set(s);
    });
    let pairs = seen.take();
    let out: HashMap<i32, i32> = pairs.iter().cloned().collect();
    assert_eq!(out.len(), pairs.len());
    out
}

#[test]
fn default_test() {
    let _hash_set = DefaultHashTrieSet::<i32>::new().insert(42);
    let _hash_map = DefaultHashTrieMap::<i32, String>::new().insert(42, String::from("Hello, world!"), false);
}

#[test]
fn map_transform() {
    let mut map = DefaultHashTrieMap::<i32, i32>::new();
    let mut squared = DefaultHashTrieMap::<i32, i32>::new();

    for i in 1..101 {
        map = map.insert(i, i, false).unwrap().0;
        squared = squared.insert(i, i * i, false).unwrap().0;
    }

    let removed = map.transform(|_, _| (), new_map_transform_removed::<(), fn(&i32, &i32) -> MapTransformResult<i32, ()>>(()), ParallelismStrategy::default_par());
    let tsquared = map.transform(|_, _| (), new_map_transform_generic(|_, v: &i32| MapTransformResult::Transformed(v * v, ())), ParallelismStrategy::default_par());

    assert_eq!(removed.0.size(), 0);

    for i in 1..101 {
        map.find(&i).unwrap();
        assert_eq!(i * i, *squared.find(&i).unwrap().1);
        assert_eq!(i * i, *tsquared.0.find(&i).unwrap().1);
    }
}

#[test]
fn map_transmute() {
    let mut map = DefaultHashTrieMap::<i32, i32>::new();
    let mut squared = DefaultHashTrieMap::<i32, i32>::new();

    for i in 1..101 {
        map = map.insert(i, i, false).unwrap().0;
        squared = squared.insert(i, i * i, false).unwrap().0;
    }

    let removed: (DefaultHashTrieMap::<i32, i32>, ()) = map.transmute(|_, _| (), new_map_transmute_removed::<(), fn(&i32, &i32) -> MapTransmuteResult<i32, i32, ()>>(()));
    let tsquared = map.transmute(|_, _| (), new_map_transmute_generic(|k: &i32, v: &i32| MapTransmuteResult::Transmuted(*k, v * v, ())));

    assert_eq!(removed.0.size(), 0);

    for i in 1..101 {
        map.find(&i).unwrap();
        assert_eq!(i * i, *squared.find(&i).unwrap().1);
        assert_eq!(i * i, *tsquared.0.find(&i).unwrap().1);
    }
}

#[test]
fn map_transmute_types_and_collisions() {
    // A transmutation to another value type, dropping the odd keys, over
    // colliding and deep hashes.
    fn check<M: HasherBv<u64, i32>>() {
        let map = build::<M>(&(0..60).collect::<Vec<i32>>());
        let (t, count) = map.transmute(
            |a: &usize, b: &usize| a + b,
            new_map_transmute_generic(|k: &i32, v: &i32| {
                if k % 2 == 0 {
                    MapTransmuteResult::Transmuted(*k, format!("{}", v), 1usize)
                } else {
                    MapTransmuteResult::Removed(1usize)
                }
            }),
        );
        assert_eq!(count, 60);
        assert_eq!(t.size(), 30);
        for k in 0..60 {
            match t.find(&k) {
                Ok((key, value)) => {
                    assert_eq!(k % 2, 0);
                    assert_eq!(*key, k);
                    assert_eq!(*value, format!("{}", k));
                },
                Err(e) => {
                    assert_eq!(k % 2, 1);
                    assert_eq!(e, HashTrieError::NotFound);
                },
            }
        }
    }
    check::<Constant>();
    check::<Mod3>();
    check::<Deep>();
    check::<fnv::FnvHasher>();
}

#[test]
fn map_insert_find_remove() {
    let map = DefaultHashTrieMap::<i32, i32>::new();
    assert_eq!(map.size(), 0);
    assert_eq!(map.find(&1), Err(HashTrieError::NotFound));
    let (map, prev) = map.insert(1, 10, false).unwrap();
    assert!(prev.is_none());
    assert_eq!(map.find(&1), Ok((&1, &10)));
    assert_eq!(map.size(), 1);
    // Inserting a present key without replacement fails with the entry there.
    assert_eq!(map.insert(1, 11, false).map(|_| ()).unwrap_err(), (&1, &10));
    // With replacement, the entry replaced comes back.
    let (replaced, prev) = map.insert(1, 11, true).unwrap();
    assert_eq!(prev, Some((&1, &10)));
    assert_eq!(replaced.find(&1), Ok((&1, &11)));
    assert_eq!(replaced.size(), 1);
    // The map the insertion was made on is unchanged.
    assert_eq!(map.find(&1), Ok((&1, &10)));
    let (emptied, k, v) = replaced.remove(&1).unwrap();
    assert_eq!((*k, *v), (1, 11));
    assert_eq!(emptied.size(), 0);
    assert_eq!(emptied.find(&1), Err(HashTrieError::NotFound));
    assert_eq!(emptied.remove(&1).map(|_| ()).unwrap_err(), HashTrieError::NotFound);
}

#[test]
fn map_remove_undoes_insert() {
    let base = build::<fnv::FnvHasher>(&[3, 1, 4, 15, 9, 2, 6]);
    let before = contents(&base);
    let (grown, _) = base.insert(100, 100, false).unwrap();
    assert_eq!(grown.size(), base.size() + 1);
    let (shrunk, _, _) = grown.remove(&100).unwrap();
    assert_eq!(shrunk.size(), base.size());
    assert_eq!(contents(&shrunk), before);
    let (without, k, v) = base.remove(&4).unwrap();
    assert_eq!((*k, *v), (4, 4));
    let (again, _) = without.insert(4, 4, false).unwrap();
    assert_eq!(contents(&again), before);
}

fn exercise<M: HasherBv<u64, i32>>(keys: &[i32]) {
    let map = build::<M>(keys);
    let expected: HashMap<i32, i32> = keys.iter().map(|k| (*k, *k)).collect();
    assert_eq!(map.size(), expected.len());
    assert_eq!(contents(&map), expected);
    for k in keys {
        assert_eq!(map.find(k), Ok((k, k)));
    }
    assert_eq!(map.find(&-1), Err(HashTrieError::NotFound));
    // Remove every key in turn; the others stay.
    let mut current = map.clone();
    let mut left = expected.clone();
    for k in keys {
        if left.remove(k).is_some() {
            let (next, rk, rv) = current.remove(k).unwrap();
            assert_eq!((*rk, *rv), (*k, *k));
            current = next;
            assert_eq!(contents(&current), left);
        } else {
            assert!(current.remove(k).is_err());
        }
    }
    assert_eq!(current.size(), 0);
    // Transform: double the even values, drop the multiples of 3.
    let (t, count) = map.transform(
        |a: &i32, b: &i32| a + b,
        new_map_transform_generic(|k: &i32, v: &i32| {
            if k % 3 == 0 {
                MapTransformResult::Removed(1)
            } else if k % 2 == 0 {
                MapTransformResult::Transformed(v * 2, 1)
            } else {
                MapTransformResult::Unchanged(1)
            }
        }),
        ParallelismStrategy::Sequential,
    );
    assert_eq!(count as usize, expected.len());
    let transformed: HashMap<i32, i32> = expected
        .iter()
        .filter(|(k, _)| *k % 3 != 0)
        .map(|(k, v)| (*k, if k % 2 == 0 { v * 2 } else { *v }))
        .collect();
    assert_eq!(contents(&t), transformed);
}

#[test]
fn map_colliding_hashes() {
    exercise::<Constant>(&[5, 1, 9, 3, 7, 2]);
    exercise::<Mod3>(&[0, 1, 2, 3, 4, 5, 6, 7, 8, 9, 10, 11, 12]);
    exercise::<Deep>(&[0, 1, 32, 33, 1024, 1025, 65536, 99]);
    exercise::<fnv::FnvHasher>(&(0..300).collect::<Vec<i32>>());
}

#[test]
fn map_visit_sees_every_entry() {
    let map = build::<fnv::FnvHasher>(&(0..1000).collect::<Vec<i32>>());
    let count = Cell::new(0usize);
    let sum = Cell::new(0i64);
    map.visit(|_k: &i32, v: &i32| {
        count.set(count.get() + 1);
        sum.set(sum.get() + *v as i64);
    });
    assert_eq!(count.get(), 1000);
    assert_eq!(sum.get(), 999 * 1000 / 2);
}

#[test]
fn map_transform_unchanged_and_removed() {
    let map = build::<Mod3>(&(0..50).collect::<Vec<i32>>());
    let (same, r) = map.transform(|a: &i32, _b: &i32| *a, new_map_transform_unchanged::<i32, TransformFn>(5), ParallelismStrategy::Sequential);
    assert_eq!(contents(&same), contents(&map));
    let _ = r;
    let (none, _) = map.transform(|a: &i32, _b: &i32| *a, new_map_transform_removed::<i32, TransformFn>(5), ParallelismStrategy::Sequential);
    assert_eq!(none.size(), 0);
    assert_eq!(none.find(&3), Err(HashTrieError::NotFound));
}

fn joint_case<M: HasherBv<u64, i32>>(a_keys: &[i32], b_keys: &[i32]) {
    let a = build::<M>(a_keys);
    let mut b = HashTrieMap::<i32, i32, M>::new();
    for k in b_keys {
        b = b.insert(*k, *k * 10, true).unwrap().0;
    }
    let ca = contents(&a);
    let cb = contents(&b);

    // Removing the keys of both and keeping the rest gives the symmetric difference.
    let (xor, _) = a.transform_with_transformed(
        &b,
        |l: &i32, r: &i32| l + r,
        new_map_joint_transform_removed::<i32, JointFn>(0),
        new_map_transform_unchanged::<i32, TransformFn>(0),
        new_map_transform_unchanged::<i32, TransformFn>(0),
        ParallelismStrategy::Sequential,
    );
    let mut expected: HashMap<i32, i32> = HashMap::new();
    for (k, v) in &ca {
        if !cb.contains_key(k) {
            expected.insert(*k, *v);
        }
    }
    for (k, v) in &cb {
        if !ca.contains_key(k) {
            expected.insert(*k, *v);
        }
    }
    assert_eq!(contents(&xor), expected);

    // Keeping the left value of the keys of both gives the union, left first.
    let (union, _) = a.transform_with_transformed(
        &b,
        |l: &i32, r: &i32| l + r,
        new_map_joint_transform_unchangedl::<i32, JointFn>(0),
        new_map_transform_unchanged::<i32, TransformFn>(0),
        new_map_transform_unchanged::<i32, TransformFn>(0),
        ParallelismStrategy::Sequential,
    );
    let mut expected = cb.clone();
    for (k, v) in &ca {
        expected.insert(*k, *v);
    }
    assert_eq!(contents(&union), expected);

    // Keeping the keys of both only gives the intersection.
    let (both, _) = a.transform_with_transformed(
        &b,
        |l: &i32, r: &i32| l + r,
        new_map_joint_transform_unchangedlr::<i32, JointFn>(0),
        new_map_transform_removed::<i32, TransformFn>(0),
        new_map_transform_removed::<i32, TransformFn>(0),
        ParallelismStrategy::Sequential,
    );
    let cboth = contents(&both);
    assert_eq!(cboth.len(), ca.keys().filter(|k| cb.contains_key(k)).count());
    for (k, v) in &cboth {
        assert!(*v == ca[k] || *v == cb[k]);
    }

    // A generic joint operation: sum the values of both, negate the left-only
    // values, drop the right-only ones; count every run.
    let (sums, runs) = a.transform_with_transformed(
        &b,
        |l: &i32, r: &i32| l + r,
        new_map_joint_transform_generic(|_: &i32, v: &i32, _: &i32, w: &i32| MapJointTransformResult::Transformed(v + w, 1)),
        new_map_transform_generic(|_: &i32, v: &i32| MapTransformResult::Transformed(-v, 1)),
        new_map_transform_generic(|_: &i32, _: &i32| MapTransformResult::Removed(1)),
        ParallelismStrategy::MiddleIndex,
    );
    let mut expected: HashMap<i32, i32> = HashMap::new();
    for (k, v) in &ca {
        match cb.get(k) {
            Some(w) => expected.insert(*k, v + w),
            None => expected.insert(*k, -v),
        };
    }
    assert_eq!(contents(&sums), expected);
    let all: HashSet<i32> = ca.keys().chain(cb.keys()).cloned().collect();
    assert_eq!(runs as usize, all.len());
}

#[test]
fn map_transform_with_transformed() {
    joint_case::<fnv::FnvHasher>(&[1, 2, 3, 4, 5, 6], &[4, 5, 6, 7, 8]);
    joint_case::<Constant>(&[1, 2, 3, 4, 5, 6], &[4, 5, 6, 7, 8]);
    joint_case::<Constant>(&[1], &[1]);
    joint_case::<Constant>(&[1], &[2]);
    joint_case::<Mod3>(&(0..40).collect::<Vec<i32>>(), &(20..70).collect::<Vec<i32>>());
    joint_case::<Deep>(&[0, 1, 32, 1024, 65536], &[1, 33, 1024, 99]);
    joint_case::<fnv::FnvHasher>(&[], &[1, 2, 3]);
    joint_case::<fnv::FnvHasher>(&[1, 2, 3], &[]);
    joint_case::<Mod3>(&[3], &[1, 2, 4, 5]);
}

#[test]
fn map_transform_with_transformed_random() {
    let mut mapa = DefaultHashTrieMap::<i32, i32>::new();
    let mut mapb = DefaultHashTrieMap::<i32, i32>::new();

    let mut rng = rand::thread_rng();
    let a = (0..25000).map(|_| rng.gen_range(0..100000)).collect::<Vec<i32>>();
    let b = (0..25000).map(|_| rng.gen_range(0..100000)).collect::<Vec<i32>>();
    for i in &a {
        mapa = mapa.insert(*i, *i, true).unwrap().0;
    }
    for i in &b {
        mapb = mapb.insert(*i, *i, true).unwrap().0;
    }
    let sa: HashSet<i32> = a.iter().cloned().collect();
    let sb: HashSet<i32> = b.iter().cloned().collect();

    let ff = mapa.transform_with_transformed(
        &mapb,
        |l: &i32, r: &i32| -> i32 { l.wrapping_add(*r) },
        new_map_joint_transform_generic(|_, v: &i32, _, w: &i32| MapJointTransformResult::Removed(v.wrapping_mul(*w))),
        new_map_transform_generic(|_, v: &i32| MapTransformResult::Unchanged(*v)),
        new_map_transform_generic(|_, v: &i32| MapTransformResult::Unchanged(*v)),
        ParallelismStrategy::default_par(),
    );
    let mut expected: i32 = 0;
    for x in sa.intersection(&sb) {
        expected = expected.wrapping_add(x.wrapping_mul(*x));
    }
    for x in sa.symmetric_difference(&sb) {
        expected = expected.wrapping_add(*x);
    }
    assert_eq!(ff.1, expected);
    assert_eq!(ff.0.size(), sa.symmetric_difference(&sb).count());

    let ffx = ff.0.transform(
        |l: &i32, r: &i32| -> i32 { l.wrapping_add(*r) },
        new_map_transform_generic(|_, v: &i32| MapTransformResult::Removed(*v)),
        ParallelismStrategy::default_par(),
    );
    let mut expected_x: i32 = 0;
    for x in sa.symmetric_difference(&sb) {
        expected_x = expected_x.wrapping_add(*x);
    }
    assert_eq!(ffx.1, expected_x);
    assert_eq!(ffx.0.size(), 0);
}

#[test]
fn fnv_hashes_of_keys() {
    assert_eq!(<fnv::FnvHasher as HasherBv<u64, u8>>::hash(&97u8), 0xaf63dc4c8601ec8c);
    assert_eq!(<fnv::FnvHasher as HasherBv<u64, i32>>::hash(&0i32), 0x4d25767f9dce13f5);
    assert_eq!(<fnv::FnvHasher as HasherBv<u64, i32>>::hash(&42i32), 0x8d9aadc8352fdf7f);
    assert_eq!(<fnv::FnvHasher as HasherBv<u64, u64>>::hash(&1u64), 0x89cd31291d2aefa4);
}

#[test]
fn parallelism_strategies() {
    assert!(matches!(ParallelismStrategy::default(), ParallelismStrategy::Sequential));
    assert!(matches!(ParallelismStrategy::default_par(), ParallelismStrategy::MiddleIndex));
}

#[test]
fn map_default_is_empty() {
    let map: DefaultHashTrieMap<i32, i32> = Default::default();
    assert_eq!(map.size(), 0);
    assert!(matches!(map.find(&7), Err(HashTrieError::NotFound)));
}

fn build_wide<M: HasherBv<u64, i32>>(keys: &[i32]) -> HashTrieMap<i32, u64, M> {
    let mut map = HashTrieMap::<i32, u64, M>::new();
    for k in keys {
        map = map.insert(*k, (*k as u64) * 10, true).unwrap().0;
    }
    map
}

fn contents_wide<M: HasherBv<u64, i32>>(map: &HashTrieMap<i32, u64, M>) -> HashMap<i32, u64> {
    let seen = Cell::new(Vec::new());
    map.visit(|k: &i32, v: &u64| {
        let mut s = seen.take();
        s.push((*k, *v));
        seen.set(s);
    });
    let pairs = seen.take();
    let out: HashMap<i32, u64> = pairs.iter().cloned().collect();
    assert_eq!(out.len(), pairs.len());
    out
}

fn transfuted_case<M: HasherBv<u64, i32>>(la: &[i32], lb: &[i32]) {
    let left = build::<M>(la);
    let right = build_wide::<M>(lb);
    let sa: HashSet<i32> = la.iter().cloned().collect();
    let sb: HashSet<i32> = lb.iter().cloned().collect();

    let (out, reduced) = left.transform_with_transfuted(
        &right,
        |a: &i32, b: &i32| -> i32 { a.wrapping_add(*b) },
        new_map_transform_transmute_generic(|_: &i32, v: &i32, _: &i32, w: &u64| {
            MapTransformResult::Transformed(*v + (*w as i32), 1)
        }),
        new_map_transform_generic(|_: &i32, v: &i32| {
            if *v % 2 == 0 { MapTransformResult::Unchanged(10) } else { MapTransformResult::Removed(10) }
        }),
        new_set_transmute_transmute_generic(|_: &i32, w: &u64| {
            if *w % 20 == 0 { SetTransmuteResult::Transmuted(-((*w / 10) as i32), 100) } else { SetTransmuteResult::Removed(100) }
        }),
        ParallelismStrategy::default_par(),
    );

    let mut expected: HashMap<i32, i32> = HashMap::new();
    let mut expected_reduced: i32 = 0;
    for k in sa.union(&sb) {
        match (sa.contains(k), sb.contains(k)) {
            (true, true) => {
                expected.insert(*k, *k + *k * 10);
                expected_reduced += 1;
            },
            (true, false) => {
                if *k % 2 == 0 {
                    expected.insert(*k, *k);
                }
                expected_reduced += 10;
            },
            _ => {
                if (*k as u64 * 10) % 20 == 0 {
                    expected.insert(*k, -*k);
                }
                expected_reduced += 100;
            },
        }
    }
    assert_eq!(contents(&out), expected);
    assert_eq!(reduced, expected_reduced);
    assert_eq!(out.size(), expected.len());
    for k in la {
        assert_eq!(*left.find(k).unwrap().1, *k);
    }
}

#[test]
fn map_transform_with_transfuted() {
    transfuted_case::<fnv::FnvHasher>(&(0..200).collect::<Vec<i32>>(), &(100..300).collect::<Vec<i32>>());
    transfuted_case::<Constant>(&[1, 2, 3, 4], &[3, 4, 5, 6]);
    transfuted_case::<Constant>(&[1], &[2]);
    transfuted_case::<Mod3>(&(0..40).collect::<Vec<i32>>(), &(20..70).collect::<Vec<i32>>());
    transfuted_case::<Deep>(&[0, 1, 32, 1024, 65536], &[1, 33, 1024, 99]);
    transfuted_case::<fnv::FnvHasher>(&[], &[1, 2, 3, 4]);
    transfuted_case::<fnv::FnvHasher>(&[1, 2, 3], &[]);
    transfuted_case::<Mod3>(&[3], &[1, 2, 4, 5]);
}

#[test]
fn map_transform_with_transfuted_keeps_left() {
    let left = build::<Mod3>(&(0..30).collect::<Vec<i32>>());
    let right = build_wide::<Mod3>(&(20..50).collect::<Vec<i32>>());
    let (out, reduced) = left.transform_with_transfuted(
        &right,
        |a: &i32, b: &i32| -> i32 { a + b },
        new_map_transform_transmute_generic(|_: &i32, _: &i32, _: &i32, _: &u64| MapTransformResult::<i32, i32>::Unchanged(1)),
        new_map_transform_unchanged::<i32, TransformFn>(1),
        new_set_transmute_removed::<i32, fn(&i32, &u64) -> SetTransmuteResult<i32, i32>>(1),
        ParallelismStrategy::default_par(),
    );
    assert_eq!(contents(&out), contents(&left));
    assert_eq!(reduced, 50);
}

fn transfute_case<M: HasherBv<u64, i32>>(la: &[i32], lb: &[i32]) {
    let left = build::<M>(la);
    let right = build_wide::<M>(lb);
    let sa: HashSet<i32> = la.iter().cloned().collect();
    let sb: HashSet<i32> = lb.iter().cloned().collect();

    let (out, reduced) = left.transfute_with_transformed(
        &right,
        |a: &i32, b: &i32| -> i32 { a.wrapping_add(*b) },
        new_map_transmute_transform_generic(|_: &i32, v: &i32, _: &i32, w: &u64| {
            if *v % 3 == 0 { MapTransformResult::Removed(1) } else { MapTransformResult::Transformed(*w + (*v as u64), 1) }
        }),
        new_set_transmute_transmute_generic(|_: &i32, v: &i32| SetTransmuteResult::Transmuted((*v as u64) * 3, 10)),
        new_map_transform_generic(|_: &i32, _: &u64| MapTransformResult::Unchanged(100)),
        ParallelismStrategy::default_par(),
    );

    let mut expected: HashMap<i32, u64> = HashMap::new();
    let mut expected_reduced: i32 = 0;
    for k in sa.union(&sb) {
        match (sa.contains(k), sb.contains(k)) {
            (true, true) => {
                if *k % 3 != 0 {
                    expected.insert(*k, (*k as u64) * 11);
                }
                expected_reduced += 1;
            },
            (true, false) => {
                expected.insert(*k, (*k as u64) * 3);
                expected_reduced += 10;
            },
            _ => {
                expected.insert(*k, (*k as u64) * 10);
                expected_reduced += 100;
            },
        }
    }
    assert_eq!(contents_wide(&out), expected);
    assert_eq!(reduced, expected_reduced);
    assert_eq!(out.size(), expected.len());
}

#[test]
fn map_transfute_with_transformed() {
    transfute_case::<fnv::FnvHasher>(&(0..200).collect::<Vec<i32>>(), &(100..300).collect::<Vec<i32>>());
    transfute_case::<Constant>(&[1, 2, 3, 4], &[3, 4, 5, 6]);
    transfute_case::<Mod3>(&(0..40).collect::<Vec<i32>>(), &(20..70).collect::<Vec<i32>>());
    transfute_case::<Deep>(&[0, 1, 32, 1024, 65536], &[1, 33, 1024, 99]);
    transfute_case::<fnv::FnvHasher>(&[], &[1, 2, 3, 4]);
    transfute_case::<fnv::FnvHasher>(&[1, 2, 3], &[]);
}

fn joint_transmute_case<M: HasherBv<u64, i32>>(la: &[i32], lb: &[i32]) {
    let left = build::<M>(la);
    let right = build_wide::<M>(lb);
    let sa: HashSet<i32> = la.iter().cloned().collect();
    let sb: HashSet<i32> = lb.iter().cloned().collect();

    let (out, reduced): (HashTrieMap<i32, u64, M>, i32) = left.transmute_with_transmuted(
        &right,
        |a: &i32, b: &i32| -> i32 { a.wrapping_add(*b) },
        new_map_transmute_transmute_generic(|k: &i32, v: &i32, _: &i32, w: &u64| {
            MapTransmuteResult::Transmuted(*k, (*v as u64) + *w, 1)
        }),
        new_map_transmute_generic(|k: &i32, v: &i32| {
            if *v % 2 == 0 { MapTransmuteResult::Transmuted(*k, (*v as u64) * 2, 10) } else { MapTransmuteResult::Removed(10) }
        }),
        new_map_transmute_generic(|k: &i32, w: &u64| MapTransmuteResult::Transmuted(*k, *w + 1, 100)),
    );

    let mut expected: HashMap<i32, u64> = HashMap::new();
    let mut expected_reduced: i32 = 0;
    for k in sa.union(&sb) {
        let ku = *k as u64;
        match (sa.contains(k), sb.contains(k)) {
            (true, true) => {
                expected.insert(*k, ku + ku * 10);
                expected_reduced += 1;
            },
            (true, false) => {
                if *k % 2 == 0 {
                    expected.insert(*k, ku * 2);
                }
                expected_reduced += 10;
            },
            _ => {
                expected.insert(*k, ku * 10 + 1);
                expected_reduced += 100;
            },
        }
    }
    assert_eq!(contents_wide(&out), expected);
    assert_eq!(reduced, expected_reduced);
    assert_eq!(out.size(), expected.len());
}

#[test]
fn map_transmute_with_transmuted() {
    joint_transmute_case::<fnv::FnvHasher>(&(0..200).collect::<Vec<i32>>(), &(100..300).collect::<Vec<i32>>());
    joint_transmute_case::<Constant>(&[1, 2, 3, 4], &[3, 4, 5, 6]);
    joint_transmute_case::<Constant>(&[1], &[2]);
    joint_transmute_case::<Mod3>(&(0..40).collect::<Vec<i32>>(), &(20..70).collect::<Vec<i32>>());
    joint_transmute_case::<Deep>(&[0, 1, 32, 1024, 65536], &[1, 33, 1024, 99]);
    joint_transmute_case::<fnv::FnvHasher>(&[], &[1, 2, 3, 4]);
    joint_transmute_case::<fnv::FnvHasher>(&[1, 2, 3], &[]);
    joint_transmute_case::<Mod3>(&[3], &[1, 2, 4, 5]);
}

#[test]
fn map_transmute_with_transmuted_removed() {
    let left = build::<Mod3>(&(0..30).collect::<Vec<i32>>());
    let right = build_wide::<Mod3>(&(20..50).collect::<Vec<i32>>());
    type Both = fn(&i32, &i32, &i32, &u64) -> MapTransmuteResult<i32, u8, i32>;
    type Left = fn(&i32, &i32) -> MapTransmuteResult<i32, u8, i32>;
    type Right = fn(&i32, &u64) -> MapTransmuteResult<i32, u8, i32>;
    let (out, reduced) = left.transmute_with_transmuted(
        &right,
        |a: &i32, b: &i32| -> i32 { a + b },
        new_map_transmute_transmute_removed::<i32, Both>(1),
        new_map_transmute_removed::<i32, Left>(1),
        new_map_transmute_removed::<i32, Right>(1),
    );
    assert_eq!(out.size(), 0);
    assert_eq!(reduced, 50);
}

#[test]
fn map_joint_transformations() {
    let mut mapa = DefaultHashTrieMap::<i32, i32>::new();
    let mut mapb = DefaultHashTrieMap::<i32, i32>::new();

    let mut rng = rand::thread_rng();
    let a = (0..25000).map(|_| rng.gen_range(0..100000)).collect::<Vec<i32>>();
    let b = (0..25000).map(|_| rng.gen_range(0..100000)).collect::<Vec<i32>>();
    for i in a {
        mapa = mapa.insert(i, i, true).unwrap().0;
    }
    for i in b {
        mapb = mapb.insert(i, i, true).unwrap().0;
    }

    let ff = mapa.transform_with_transformed(&mapb, |l: &i32, r: &i32| -> i32 { l.wrapping_add(*r) },
        new_map_joint_transform_generic(|_, v: &i32, _, w: &i32| MapJointTransformResult::Removed(v.wrapping_mul(*w))),
        new_map_transform_generic(|_, v: &i32| MapTransformResult::Unchanged(*v)),
        new_map_transform_generic(|_, v: &i32| MapTransformResult::Unchanged(*v)),
        ParallelismStrategy::default_par());
    let fm = mapa.transform_with_transmuted(&mapb, |l: &i32, r: &i32| -> i32 { l.wrapping_add(*r) },
        new_map_transform_transmute_generic(|_: &i32, v: &i32, _: &i32, w: &i32| MapTransformResult::Removed(v.wrapping_mul(*w))),
        new_map_transform_generic(|_, v: &i32| MapTransformResult::Unchanged(*v)),
        new_map_transmute_generic(|k: &i32, v: &i32| MapTransmuteResult::Transmuted(*k, *v, *v)),
        ParallelismStrategy::default_par());
    let mf = mapa.transmute_with_transformed(&mapb, |l: &i32, r: &i32| -> i32 { l.wrapping_add(*r) },
        new_map_transmute_transform_generic(|_: &i32, v: &i32, _: &i32, w: &i32| MapTransformResult::Removed(v.wrapping_mul(*w))),
        new_map_transmute_generic(|k: &i32, v: &i32| MapTransmuteResult::Transmuted(*k, *v, *v)),
        new_map_transform_generic(|_, v: &i32| MapTransformResult::Unchanged(*v)),
        ParallelismStrategy::default_par());
    let mm: (DefaultHashTrieMap<i32, i32>, i32) = mapa.transmute_with_transmuted(&mapb, |l: &i32, r: &i32| -> i32 { l.wrapping_add(*r) },
        new_map_transmute_transmute_generic(|_: &i32, v: &i32, _: &i32, w: &i32| MapTransmuteResult::Removed(v.wrapping_mul(*w))),
        new_map_transmute_generic(|k: &i32, v: &i32| MapTransmuteResult::Transmuted(*k, *v, *v)),
        new_map_transmute_generic(|k: &i32, v: &i32| MapTransmuteResult::Transmuted(*k, *v, *v)));

    assert_eq!(ff.1, fm.1);
    assert_eq!(ff.1, mf.1);
    assert_eq!(ff.1, mm.1);

    let ffx = ff.0.transform(|l: &i32, r: &i32| -> i32 { l.wrapping_add(*r) }, new_map_transform_generic(|_, v: &i32| MapTransformResult::Removed(*v)), ParallelismStrategy::default_par());
    let fmx = fm.0.transform(|l: &i32, r: &i32| -> i32 { l.wrapping_add(*r) }, new_map_transform_generic(|_, v: &i32| MapTransformResult::Removed(*v)), ParallelismStrategy::default_par());
    let mfx = mf.0.transform(|l: &i32, r: &i32| -> i32 { l.wrapping_add(*r) }, new_map_transform_generic(|_, v: &i32| MapTransformResult::Removed(*v)), ParallelismStrategy::default_par());
    let mmx = mm.0.transform(|l: &i32, r: &i32| -> i32 { l.wrapping_add(*r) }, new_map_transform_generic(|_, v: &i32| MapTransformResult::Removed(*v)), ParallelismStrategy::default_par());

    assert_eq!(ffx.1, fmx.1);
    assert_eq!(ffx.1, mfx.1);
    assert_eq!(ffx.1, mmx.1);
}

/// `shift` moves the keys of the entries that come from one map alone; it
/// keeps their hash under `M` and keeps them clear of the other map's keys.
fn transmuted_case<M: HasherBv<u64, i32>>(la: &[i32], lb: &[i32], shift: i32) {
    let left = build::<M>(la);
    let right = build_wide::<M>(lb);
    let sa: HashSet<i32> = la.iter().cloned().collect();
    let sb: HashSet<i32> = lb.iter().cloned().collect();

    let (out, reduced) = left.transform_with_transmuted(
        &right,
        |a: &i32, b: &i32| -> i32 { a.wrapping_add(*b) },
        new_map_transform_transmute_generic(|_: &i32, v: &i32, _: &i32, w: &u64| {
            if *v % 4 == 0 { MapTransformResult::Removed(1) } else { MapTransformResult::Transformed(*v - (*w as i32), 1) }
        }),
        new_map_transform_generic(|_: &i32, v: &i32| {
            if *v % 2 == 0 { MapTransformResult::Unchanged(10) } else { MapTransformResult::Transformed(*v * 2, 10) }
        }),
        new_map_transmute_generic(move |k: &i32, w: &u64| {
            if *w % 30 == 0 { MapTransmuteResult::Removed(100) } else { MapTransmuteResult::Transmuted(*k + shift, (*w as i32) + 1, 100) }
        }),
        ParallelismStrategy::default_par(),
    );

    let mut expected: HashMap<i32, i32> = HashMap::new();
    let mut expected_reduced: i32 = 0;
    for k in sa.union(&sb) {
        match (sa.contains(k), sb.contains(k)) {
            (true, true) => {
                if *k % 4 != 0 {
                    expected.insert(*k, *k - *k * 10);
                }
                expected_reduced += 1;
            },
            (true, false) => {
                expected.insert(*k, if *k % 2 == 0 { *k } else { *k * 2 });
                expected_reduced += 10;
            },
            _ => {
                if (*k * 10) % 30 != 0 {
                    expected.insert(*k + shift, *k * 10 + 1);
                }
                expected_reduced += 100;
            },
        }
    }
    assert_eq!(contents(&out), expected);
    assert_eq!(reduced, expected_reduced);
    assert_eq!(out.size(), expected.len());

    let (back, back_reduced) = right.transmute_with_transformed(
        &left,
        |a: &i32, b: &i32| -> i32 { a.wrapping_add(*b) },
        new_map_transmute_transform_generic(|_: &i32, w: &u64, _: &i32, v: &i32| {
            if *v % 4 == 0 { MapTransformResult::Removed(1) } else { MapTransformResult::Transformed(*v - (*w as i32), 1) }
        }),
        new_map_transmute_generic(move |k: &i32, w: &u64| {
            if *w % 30 == 0 { MapTransmuteResult::Removed(100) } else { MapTransmuteResult::Transmuted(*k + shift, (*w as i32) + 1, 100) }
        }),
        new_map_transform_generic(|_: &i32, v: &i32| {
            if *v % 2 == 0 { MapTransformResult::Unchanged(10) } else { MapTransformResult::Transformed(*v * 2, 10) }
        }),
        ParallelismStrategy::default_par(),
    );
    assert_eq!(contents(&back), expected);
    assert_eq!(back_reduced, expected_reduced);
    for k in la {
        assert_eq!(*left.find(k).unwrap().1, *k);
    }
}

#[test]
fn map_transform_with_transmuted() {
    transmuted_case::<fnv::FnvHasher>(&(0..200).collect::<Vec<i32>>(), &(100..300).collect::<Vec<i32>>(), 0);
    transmuted_case::<Constant>(&[1, 2, 3, 4], &[3, 4, 5, 6], 100);
    transmuted_case::<Constant>(&[1], &[2], -50);
    transmuted_case::<Mod3>(&(0..40).collect::<Vec<i32>>(), &(20..70).collect::<Vec<i32>>(), 300);
    transmuted_case::<Mod3>(&[3], &[1, 2, 4, 5], 0);
    transmuted_case::<fnv::FnvHasher>(&[], &[1, 2, 3, 4], 0);
    transmuted_case::<fnv::FnvHasher>(&[1, 2, 3], &[], 0);
    transmuted_case::<Deep>(&[0, 1, 32, 1024, 65536], &[1, 33, 1024, 99], 0);
}

#[test]
fn map_transform_with_transmuted_keeps_left() {
    let left = build::<Mod3>(&(0..30).collect::<Vec<i32>>());
    let right = build_wide::<Mod3>(&(20..50).collect::<Vec<i32>>());
    let (out, reduced) = left.transform_with_transmuted(
        &right,
        |a: &i32, b: &i32| -> i32 { a + b },
        new_map_transform_transmute_generic(|_: &i32, _: &i32, _: &i32, _: &u64| MapTransformResult::<i32, i32>::Unchanged(1)),
        new_map_transform_unchanged::<i32, TransformFn>(1),
        new_map_transmute_removed::<i32, fn(&i32, &u64) -> MapTransmuteResult<i32, i32, i32>>(1),
        ParallelismStrategy::default_par(),
    );
    assert_eq!(contents(&out), contents(&left));
    assert_eq!(reduced, 50);

    let (back, back_reduced) = right.transmute_with_transformed(
        &left,
        |a: &i32, b: &i32| -> i32 { a + b },
        new_map_transmute_transform_generic(|_: &i32, _: &u64, _: &i32, _: &i32| MapTransformResult::<i32, i32>::Unchanged(1)),
        new_map_transmute_removed::<i32, fn(&i32, &u64) -> MapTransmuteResult<i32, i32, i32>>(1),
        new_map_transform_unchanged::<i32, TransformFn>(1),
        ParallelismStrategy::default_par(),
    );
    assert_eq!(contents(&back), contents(&left));
    assert_eq!(back_reduced, 50);
}

fn counts_case<M: HasherBv<u64, i32>>(la: &[i32], lb: &[i32]) {
    let left = build::<M>(la);
    let right = build_wide::<M>(lb);
    let sa: HashSet<i32> = la.iter().cloned().collect();
    let sb: HashSet<i32> = lb.iter().cloned().collect();
    let union = sa.union(&sb).count() as u64;

    let (_, n) = left.transform(
        |a: &u64, b: &u64| -> u64 { a + b },
        new_map_transform_generic(|_: &i32, v: &i32| {
            if *v % 2 == 0 { MapTransformResult::Unchanged(1u64) } else { MapTransformResult::Removed(1u64) }
        }),
        ParallelismStrategy::default_par(),
    );
    assert_eq!(n, sa.len() as u64);

    let (_, n): (HashTrieMap<i32, u8, M>, u64) = left.transmute(
        |a: &u64, b: &u64| -> u64 { a + b },
        new_map_transmute_generic(|k: &i32, _: &i32| MapTransmuteResult::Transmuted(*k, 7u8, 1u64)),
    );
    assert_eq!(n, sa.len() as u64);

    let (_, n) = left.transform_with_transformed(
        &left,
        |a: &u64, b: &u64| -> u64 { a + b },
        new_map_joint_transform_generic(|_: &i32, _: &i32, _: &i32, _: &i32| MapJointTransformResult::UnchangedL(1u64)),
        new_map_transform_generic(|_: &i32, _: &i32| MapTransformResult::Unchanged(1u64)),
        new_map_transform_generic(|_: &i32, _: &i32| MapTransformResult::Unchanged(1u64)),
        ParallelismStrategy::default_par(),
    );
    assert_eq!(n, sa.len() as u64);

    let (_, n) = left.transform_with_transfuted(
        &right,
        |a: &u64, b: &u64| -> u64 { a + b },
        new_map_transform_transmute_generic(|_: &i32, _: &i32, _: &i32, _: &u64| MapTransformResult::Removed(1u64)),
        new_map_transform_generic(|_: &i32, _: &i32| MapTransformResult::Unchanged(1u64)),
        new_set_transmute_transmute_generic(|_: &i32, w: &u64| SetTransmuteResult::Transmuted(*w as i32, 1u64)),
        ParallelismStrategy::default_par(),
    );
    assert_eq!(n, union);

    let (_, n) = left.transfute_with_transformed(
        &right,
        |a: &u64, b: &u64| -> u64 { a + b },
        new_map_transmute_transform_generic(|_: &i32, _: &i32, _: &i32, _: &u64| MapTransformResult::Unchanged(1u64)),
        new_set_transmute_transmute_generic(|_: &i32, v: &i32| SetTransmuteResult::Transmuted(*v as u64, 1u64)),
        new_map_transform_generic(|_: &i32, _: &u64| MapTransformResult::Removed(1u64)),
        ParallelismStrategy::default_par(),
    );
    assert_eq!(n, union);

    let (_, n): (HashTrieMap<i32, u8, M>, u64) = left.transmute_with_transmuted(
        &right,
        |a: &u64, b: &u64| -> u64 { a + b },
        new_map_transmute_transmute_generic(|k: &i32, _: &i32, _: &i32, _: &u64| MapTransmuteResult::Transmuted(*k, 1u8, 1u64)),
        new_map_transmute_generic(|_: &i32, _: &i32| MapTransmuteResult::Removed(1u64)),
        new_map_transmute_generic(|k: &i32, _: &u64| MapTransmuteResult::Transmuted(*k, 2u8, 1u64)),
    );
    assert_eq!(n, union);

    let (_, n) = left.transform_with_transmuted(
        &right,
        |a: &u64, b: &u64| -> u64 { a + b },
        new_map_transform_transmute_generic(|_: &i32, _: &i32, _: &i32, _: &u64| MapTransformResult::Unchanged(1u64)),
        new_map_transform_generic(|_: &i32, _: &i32| MapTransformResult::Removed(1u64)),
        new_map_transmute_generic(|k: &i32, _: &u64| MapTransmuteResult::Transmuted(*k, 0i32, 1u64)),
        ParallelismStrategy::default_par(),
    );
    assert_eq!(n, union);

    let (_, n) = left.transmute_with_transformed(
        &right,
        |a: &u64, b: &u64| -> u64 { a + b },
        new_map_transmute_transform_generic(|_: &i32, _: &i32, _: &i32, _: &u64| MapTransformResult::Unchanged(1u64)),
        new_map_transmute_generic(|k: &i32, _: &i32| MapTransmuteResult::Transmuted(*k, 5u64, 1u64)),
        new_map_transform_generic(|_: &i32, _: &u64| MapTransformResult::Unchanged(1u64)),
        ParallelismStrategy::default_par(),
    );
    assert_eq!(n, union);
}

#[test]
fn map_reductions_count_entries() {
    counts_case::<fnv::FnvHasher>(&(0..300).collect::<Vec<i32>>(), &(150..500).collect::<Vec<i32>>());
    counts_case::<Constant>(&[1, 2, 3, 4], &[3, 4, 5, 6]);
    counts_case::<Mod3>(&(0..40).collect::<Vec<i32>>(), &(20..70).collect::<Vec<i32>>());
    counts_case::<Deep>(&[0, 1, 32, 1024, 65536], &[1, 33, 1024, 99]);
    counts_case::<fnv::FnvHasher>(&[], &[1, 2, 3]);
    counts_case::<fnv::FnvHasher>(&[1, 2, 3], &[]);
    counts_case::<fnv::FnvHasher>(&[], &[]);
}

#[test]
fn map_constant_reductions_are_copies() {
    let left = build::<Mod3>(&(0..30).collect::<Vec<i32>>());
    let (_, n) = left.transform(
        |a: &u64, b: &u64| -> u64 { a.max(b).clone() },
        new_map_transform_unchanged::<u64, fn(&i32, &i32) -> MapTransformResult<i32, u64>>(9u64),
        ParallelismStrategy::default_par(),
    );
    assert_eq!(n, 9);
    let (_, n) = left.transform(
        |a: &u64, b: &u64| -> u64 { a.max(b).clone() },
        new_map_transform_removed::<u64, fn(&i32, &i32) -> MapTransformResult<i32, u64>>(4u64),
        ParallelismStrategy::default_par(),
    );
    assert_eq!(n, 4);
}

#[test]
fn map_joint_constant_reductions_are_copies() {
    // Keys 0..20 on the left and 10..30 on the right, all in one collision list
    // on each side: the constant left operation gives its value at least once.
    let a = build::<Constant>(&(0..20).collect::<Vec<i32>>());
    let b = build::<Constant>(&(10..30).collect::<Vec<i32>>());
    let (_, n) = a.transform_with_transformed(
        &b,
        |l: &i32, r: &i32| *l.max(r),
        new_map_joint_transform_generic(|_: &i32, v: &i32, _: &i32, w: &i32| MapJointTransformResult::Transformed(v + w, 1)),
        new_map_transform_unchanged::<i32, TransformFn>(7),
        new_map_transform_generic(|_: &i32, _: &i32| MapTransformResult::Removed(2)),
        ParallelismStrategy::Sequential,
    );
    assert_eq!(n, 7);
    // With a generic left operation, the sum over the keys of both is kept.
    let (_, n) = a.transform_with_transformed(
        &b,
        |l: &i32, r: &i32| l + r,
        new_map_joint_transform_generic(|_: &i32, v: &i32, _: &i32, w: &i32| MapJointTransformResult::Transformed(v + w, 1)),
        new_map_transform_generic(|_: &i32, v: &i32| MapTransformResult::Unchanged(0 * v)),
        new_map_transform_generic(|_: &i32, _: &i32| MapTransformResult::Removed(0)),
        ParallelismStrategy::Sequential,
    );
    assert_eq!(n, 10);
}

#[test]
fn map_constant_reductions_count_entries() {
    // A constant operation gives its value once for every entry, also where
    // the entries share one collision list.
    let list = build::<Constant>(&(0..12).collect::<Vec<i32>>());
    let (_, n) = list.transform(
        |a: &u64, b: &u64| -> u64 { a + b },
        new_map_transform_unchanged::<u64, fn(&i32, &i32) -> MapTransformResult<i32, u64>>(1u64),
        ParallelismStrategy::Sequential,
    );
    assert_eq!(n, 12);
    let (_, n) = list.transform(
        |a: &u64, b: &u64| -> u64 { a + b },
        new_map_transform_removed::<u64, fn(&i32, &i32) -> MapTransformResult<i32, u64>>(2u64),
        ParallelismStrategy::Sequential,
    );
    assert_eq!(n, 24);
    let (_, n): (HashTrieMap<i32, i32, Constant>, u64) = list.transmute(
        |a: &u64, b: &u64| -> u64 { a + b },
        new_map_transmute_removed::<u64, fn(&i32, &i32) -> MapTransmuteResult<i32, i32, u64>>(1u64),
    );
    assert_eq!(n, 12);
    let spread = build::<Mod3>(&(0..30).collect::<Vec<i32>>());
    let (_, n) = spread.transform(
        |a: &u64, b: &u64| -> u64 { a + b },
        new_map_transform_unchanged::<u64, fn(&i32, &i32) -> MapTransformResult<i32, u64>>(1u64),
        ParallelismStrategy::Sequential,
    );
    assert_eq!(n, 30);
}

#[test]
fn map_joint_constant_reductions_count_keys() {
    // Keys 0..20 on the left and 10..30 on the right, in one collision list on
    // each side: constant operations on the keys of one side give their value
    // once per key.
    let a = build::<Constant>(&(0..20).collect::<Vec<i32>>());
    let b = build::<Constant>(&(10..30).collect::<Vec<i32>>());
    let (_, n) = a.transform_with_transformed(
        &b,
        |l: &i32, r: &i32| l + r,
        new_map_joint_transform_generic(|_: &i32, v: &i32, _: &i32, w: &i32| MapJointTransformResult::Transformed(v + w, 1)),
        new_map_transform_unchanged::<i32, TransformFn>(1),
        new_map_transform_removed::<i32, TransformFn>(1),
        ParallelismStrategy::Sequential,
    );
    assert_eq!(n, 30);
}
