use hash_trie::results::{
    MapJointTransformResult, MapTransformResult, MapTransmuteResult, SetJointTransformResult, SetTransformResult,
    SetTransmuteResult,
};
use hash_trie::transformations::{
    new_map_joint_transform_generic, new_map_joint_transform_removed, new_map_joint_transform_unchangedlr, new_map_joint_transform_unchangedl, new_map_joint_transform_unchangedr,
    new_map_transform_generic, new_map_transform_removed, new_map_transform_transmute_generic,
    new_map_transform_transmute_removed, new_map_transform_transmute_unchanged, new_map_transmute_transform_generic,
    new_map_transmute_transform_removed, new_map_transmute_transform_unchanged, new_map_transmute_transmute_generic,
    new_map_transmute_transmute_removed, new_set_joint_transform_generic, new_set_joint_transform_removed,
    new_set_joint_transform_unchangedl, new_set_joint_transform_unchangedlr, new_set_joint_transform_unchangedr,
    new_set_transform_generic, new_set_transform_removed, new_set_transform_transmute_generic,
    new_set_transform_transmute_removed, new_set_transform_transmute_unchanged, new_set_transform_unchanged,
    new_set_transmute_generic, new_set_transmute_transmute_generic, new_set_transmute_transmute_removed, MapJointTransform,
};

type JointFn = fn(&i32, &i32, &i32, &i32) -> MapJointTransformResult<i32, u8>;

#[test]
fn map_transform_call() {
    let t = new_map_transform_generic(|k: &i32, v: &i32| MapTransformResult::Transformed(k + v, 1u8));
    assert!(matches!(t.call(&2, &3), MapTransformResult::Transformed(5, 1)));
    let r = new_map_transform_removed::<u8, fn(&i32, &i32) -> MapTransformResult<i32, u8>>(9);
    assert!(matches!(r.call(&2, &3), MapTransformResult::Removed(9)));
}

#[test]
fn map_joint_transform_flip() {
    let t = new_map_joint_transform_generic(|_: &i32, v: &i32, _: &i32, w: &i32| {
        if v < w {
            MapJointTransformResult::UnchangedL(0u8)
        } else {
            MapJointTransformResult::UnchangedR(0u8)
        }
    });
    assert!(matches!(t.call(&1, &1, &1, &2), MapJointTransformResult::UnchangedL(0)));
    // The flipped transformation answers the swapped arguments with the
    // flipped result.
    let f = t.flip();
    assert!(matches!(f.call(&1, &2, &1, &1), MapJointTransformResult::UnchangedR(0)));
    assert!(matches!(f.call(&1, &1, &1, &2), MapJointTransformResult::UnchangedL(0)));
    let l = new_map_joint_transform_unchangedl::<u8, JointFn>(3);
    assert!(matches!(l.call(&1, &1, &1, &2), MapJointTransformResult::UnchangedL(3)));
    assert!(matches!(MapJointTransform::<u8, JointFn>::Removed(4).call(&1, &1, &1, &2), MapJointTransformResult::Removed(4)));
}

#[test]
fn map_joint_transform_flip_constants() {
    // For every constant joint transformation, the flipped one answers the
    // swapped arguments with the flipped answer.
    let consts: Vec<MapJointTransform<u8, JointFn>> = vec![
        new_map_joint_transform_unchangedlr::<u8, JointFn>(1),
        new_map_joint_transform_unchangedl::<u8, JointFn>(2),
        new_map_joint_transform_unchangedr::<u8, JointFn>(3),
        new_map_joint_transform_removed::<u8, JointFn>(4),
    ];
    for t in consts.iter() {
        let direct = t.call(&1, &10, &1, &20).flip();
        let flipped = t.flip().call(&1, &20, &1, &10);
        assert!(same_joint(&direct, &flipped));
        let twice = t.flip().flip().call(&1, &10, &1, &20);
        assert!(same_joint(&twice, &t.call(&1, &10, &1, &20)));
    }
    assert!(matches!(new_map_joint_transform_unchangedl::<u8, JointFn>(2).flip().call(&1, &1, &1, &1), MapJointTransformResult::UnchangedR(2)));
    assert!(matches!(new_map_joint_transform_unchangedr::<u8, JointFn>(3).flip().call(&1, &1, &1, &1), MapJointTransformResult::UnchangedL(3)));
    type SetFn = fn(&i32, &i32) -> SetJointTransformResult<u8>;
    assert!(matches!(new_set_joint_transform_unchangedr::<u8, SetFn>(3).flip().call(&1, &1), SetJointTransformResult::UnchangedL(3)));
}

fn same_joint(a: &MapJointTransformResult<i32, u8>, b: &MapJointTransformResult<i32, u8>) -> bool {
    match (a, b) {
        (MapJointTransformResult::UnchangedLR(x), MapJointTransformResult::UnchangedLR(y)) => x == y,
        (MapJointTransformResult::UnchangedL(x), MapJointTransformResult::UnchangedL(y)) => x == y,
        (MapJointTransformResult::UnchangedR(x), MapJointTransformResult::UnchangedR(y)) => x == y,
        (MapJointTransformResult::Transformed(v, x), MapJointTransformResult::Transformed(w, y)) => v == w && x == y,
        (MapJointTransformResult::Removed(x), MapJointTransformResult::Removed(y)) => x == y,
        _ => false,
    }
}

#[test]
fn joint_results_flip() {
    assert!(matches!(MapJointTransformResult::<i32, u8>::UnchangedL(1).flip(), MapJointTransformResult::UnchangedR(1)));
    assert!(matches!(MapJointTransformResult::<i32, u8>::UnchangedR(1).flip(), MapJointTransformResult::UnchangedL(1)));
    assert!(matches!(MapJointTransformResult::<i32, u8>::UnchangedLR(1).flip(), MapJointTransformResult::UnchangedLR(1)));
    assert!(matches!(MapJointTransformResult::<i32, u8>::Transformed(7, 1).flip(), MapJointTransformResult::Transformed(7, 1)));
    assert!(matches!(MapJointTransformResult::<i32, u8>::Removed(1).flip(), MapJointTransformResult::Removed(1)));
    // Flipping twice gives back the result.
    assert!(matches!(MapJointTransformResult::<i32, u8>::UnchangedL(2).flip().flip(), MapJointTransformResult::UnchangedL(2)));
    assert!(matches!(SetJointTransformResult::<u8>::UnchangedL(1).flip(), SetJointTransformResult::UnchangedR(1)));
    assert!(matches!(SetJointTransformResult::<u8>::UnchangedR(1).flip().flip(), SetJointTransformResult::UnchangedR(1)));
}

#[test]
fn set_transforms_call() {
    let t = new_set_transform_generic(|k: &i32| if *k > 0 { SetTransformResult::Unchanged(1u8) } else { SetTransformResult::Removed(2u8) });
    assert!(matches!(t.call(&1), SetTransformResult::Unchanged(1)));
    assert!(matches!(t.call(&-1), SetTransformResult::Removed(2)));
    let j = new_set_joint_transform_generic(|k: &i32, l: &i32| if k == l { SetJointTransformResult::UnchangedLR(0u8) } else { SetJointTransformResult::Removed(1u8) });
    assert!(matches!(j.call(&1, &1), SetJointTransformResult::UnchangedLR(0)));
    assert!(matches!(j.flip().call(&1, &2), SetJointTransformResult::Removed(1)));
}

#[test]
fn transform_transmute_calls_and_flips() {
    let t = new_map_transform_transmute_generic(|_: &i32, v: &i32, _: &u8, w: &u64| MapTransformResult::Transformed(*v + *w as i32, 1u8));
    assert!(matches!(t.call_transform_transmute(&1, &2, &1u8, &5u64), MapTransformResult::Transformed(7, 1)));
    let f = t.flip_transform_transmute::<i32, i32, u8, u64>();
    assert!(matches!(f.call_transmute_transform(&1u8, &5u64, &1, &2), MapTransformResult::Transformed(7, 1)));
    let u = new_map_transform_transmute_unchanged::<u8, fn(&i32, &i32, &u8, &u64) -> MapTransformResult<i32, u8>>(4);
    assert!(matches!(u.call_transform_transmute(&1, &2, &1u8, &5u64), MapTransformResult::Unchanged(4)));
    let r = new_map_transform_transmute_removed::<u8, fn(&i32, &i32, &u8, &u64) -> MapTransformResult<i32, u8>>(5);
    assert!(matches!(r.call_transform_transmute(&1, &2, &1u8, &5u64), MapTransformResult::Removed(5)));

    let m = new_map_transmute_transform_generic(|_: &i32, v: &i32, _: &u8, w: &u64| MapTransformResult::Transformed(*w * 2 + *v as u64, 2u8));
    assert!(matches!(m.call_transmute_transform(&1, &3, &1u8, &5u64), MapTransformResult::Transformed(13, 2)));
    let mf = m.flip_transmute_transform::<i32, i32, u8, u64>();
    assert!(matches!(mf.call_transform_transmute(&1u8, &5u64, &1, &3), MapTransformResult::Transformed(13, 2)));
    let mu = new_map_transmute_transform_unchanged::<u8, fn(&i32, &i32, &u8, &u64) -> MapTransformResult<u64, u8>>(6);
    assert!(matches!(mu.call_transmute_transform(&1, &3, &1u8, &5u64), MapTransformResult::Unchanged(6)));
    let mr = new_map_transmute_transform_removed::<u8, fn(&i32, &i32, &u8, &u64) -> MapTransformResult<u64, u8>>(7);
    assert!(matches!(mr.call_transmute_transform(&1, &3, &1u8, &5u64), MapTransformResult::Removed(7)));
}

#[test]
fn transmute_calls_and_flips() {
    let t = new_map_transmute_transmute_generic(|k: &i32, v: &i32, _: &u8, w: &u64| MapTransmuteResult::Transmuted(*k as u64, *v as u64 + *w, 1u8));
    assert!(matches!(t.call_transmute(&2, &3, &9u8, &4u64), MapTransmuteResult::Transmuted(2, 7, 1)));
    let f = t.flip::<i32, i32, u8, u64, u64, u64>();
    assert!(matches!(f.call_transmute(&9u8, &4u64, &2, &3), MapTransmuteResult::Transmuted(2, 7, 1)));
    let r = new_map_transmute_transmute_removed::<u8, fn(&i32, &i32, &u8, &u64) -> MapTransmuteResult<u64, u64, u8>>(3);
    assert!(matches!(r.call_transmute(&2, &3, &9u8, &4u64), MapTransmuteResult::Removed(3)));

    let s = new_set_transmute_generic(|k: &i32| SetTransmuteResult::Transmuted(*k as u64 * 2, 0u8));
    assert!(matches!(s.call(&4), SetTransmuteResult::Transmuted(8, 0)));
    let st = new_set_transmute_transmute_generic(|k: &i32, l: &u8| if *k > 0 { SetTransmuteResult::Transmuted(*k as u64 + *l as u64, 1u8) } else { SetTransmuteResult::Removed(2u8) });
    assert!(matches!(st.call_transmute(&4, &1u8), SetTransmuteResult::Transmuted(5, 1)));
    assert!(matches!(st.flip::<i32, u8, u64>().call_transmute(&1u8, &-4), SetTransmuteResult::Removed(2)));
    let sr = new_set_transmute_transmute_removed::<u8, fn(&i32, &u8) -> SetTransmuteResult<u64, u8>>(5);
    assert!(matches!(sr.call_transmute(&4, &1u8), SetTransmuteResult::Removed(5)));
}

#[test]
fn set_transform_constructors() {
    let u = new_set_transform_unchanged::<u8, fn(&i32) -> SetTransformResult<u8>>(1);
    assert!(matches!(u.call(&3), SetTransformResult::Unchanged(1)));
    let r = new_set_transform_removed::<u8, fn(&i32) -> SetTransformResult<u8>>(2);
    assert!(matches!(r.call(&3), SetTransformResult::Removed(2)));
    let g = new_set_transform_transmute_generic(|k: &i32, l: &u64| if (*k as u64) == *l { SetTransformResult::Unchanged(0u8) } else { SetTransformResult::Removed(1u8) });
    assert!(matches!(g.call_transmute(&3, &3u64), SetTransformResult::Unchanged(0)));
    assert!(matches!(g.flip_transmute::<i32, u64>().call_transmute(&4u64, &3), SetTransformResult::Removed(1)));
    let tu = new_set_transform_transmute_unchanged::<u8, fn(&i32, &u64) -> SetTransformResult<u8>>(3);
    assert!(matches!(tu.call_transmute(&3, &3u64), SetTransformResult::Unchanged(3)));
    let tr = new_set_transform_transmute_removed::<u8, fn(&i32, &u64) -> SetTransformResult<u8>>(4);
    assert!(matches!(tr.call_transmute(&3, &3u64), SetTransformResult::Removed(4)));

    type SetJointFn = fn(&i32, &i32) -> SetJointTransformResult<u8>;
    assert!(matches!(new_set_joint_transform_unchangedlr::<u8, SetJointFn>(1).call(&1, &1), SetJointTransformResult::UnchangedLR(1)));
    assert!(matches!(new_set_joint_transform_unchangedl::<u8, SetJointFn>(2).call(&1, &1), SetJointTransformResult::UnchangedL(2)));
    assert!(matches!(new_set_joint_transform_unchangedr::<u8, SetJointFn>(3).call(&1, &1), SetJointTransformResult::UnchangedR(3)));
    assert!(matches!(new_set_joint_transform_removed::<u8, SetJointFn>(4).call(&1, &1), SetJointTransformResult::Removed(4)));
    // Flipping exchanges the constant left and right answers.
    assert!(matches!(new_set_joint_transform_unchangedl::<u8, SetJointFn>(2).flip().call(&1, &1), SetJointTransformResult::UnchangedR(2)));
    assert!(matches!(new_map_joint_transform_unchangedr::<u8, JointFn>(5).call(&1, &1, &1, &1), MapJointTransformResult::UnchangedR(5)));
}
