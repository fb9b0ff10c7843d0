//! Transformations of entries: the operations run on each entry, or on each pair
//! of entries with equal keys, by the transform operations of the maps and sets.
use vstd::prelude::*;
use vstd::pervasive::cloned;
use crate::reduction::{Reduction, reduction_fits};
use crate::results::{
    MapJointTransformResult, MapTransformResult, MapTransmuteResult, SetJointTransformResult,
    SetTransformResult, SetTransmuteResult,
};

verus! {

/// `MapJointTransform` represents a transformation that can be run on a pair of maps.
pub enum MapJointTransform<ReduceT, F> {
    /// `MapJointTransform::Generic` can store an arbitrary joint transformation. The other values should be preferred when applicable, since they can open up optimization potential.
    Generic(F, bool),
    /// `MapJointTransform::UnchangedLR` indicates the value of either side of the joint transformation should be reused in the new map.
    UnchangedLR(ReduceT),
    /// `MapJointTransform::UnchangedL` indicates the value of the left side only should be reused in the new map.
    UnchangedL(ReduceT),
    /// `MapJointTransform::UnchangedR` indicates the value of the right side only should be reused in the new map.
    UnchangedR(ReduceT),
    /// `MapJointTransform::Removed` indicates the value should be removed from the map.
    Removed(ReduceT),
}

impl<ReduceT: Clone, F> MapJointTransform<ReduceT, F> {
    /// Call the joint transformation and return a result.
    pub fn call<K, V>(&self, k: &K, v: &V, l: &K, w: &V) -> (r: MapJointTransformResult<V, ReduceT>) where
        F: Fn(&K, &V, &K, &V) -> MapJointTransformResult<V, ReduceT>,

        requires
            match *self {
                MapJointTransform::Generic(f, flipped) => if flipped {
                    f.requires((l, w, k, v))
                } else {
                    f.requires((k, v, l, w))
                },
                _ => true,
            },
        ensures
            match *self {
                MapJointTransform::Generic(f, flipped) => if flipped {
                    f.ensures((l, w, k, v), r.spec_flip())
                } else {
                    f.ensures((k, v, l, w), r)
                },
                MapJointTransform::UnchangedLR(x) => r matches MapJointTransformResult::UnchangedLR(y) && cloned(x, y),
                MapJointTransform::UnchangedL(x) => r matches MapJointTransformResult::UnchangedL(y) && cloned(x, y),
                MapJointTransform::UnchangedR(x) => r matches MapJointTransformResult::UnchangedR(y) && cloned(x, y),
                MapJointTransform::Removed(x) => r matches MapJointTransformResult::Removed(y) && cloned(x, y),
            },
    {
        match self {
            MapJointTransform::Generic(f, flipped) => {
                if *flipped {
                    let r = f(l, w, k, v);
                    r.flip()
                } else {
                    f(k, v, l, w)
                }
            },
            MapJointTransform::UnchangedLR(r) => MapJointTransformResult::UnchangedLR(r.clone()),
            MapJointTransform::UnchangedL(r) => MapJointTransformResult::UnchangedL(r.clone()),
            MapJointTransform::UnchangedR(r) => MapJointTransformResult::UnchangedR(r.clone()),
            MapJointTransform::Removed(r) => MapJointTransformResult::Removed(r.clone()),
        }
    }

}

impl<ReduceT: Clone, F: Clone> MapJointTransform<ReduceT, F> {
    /// Flip the joint transformation so it can respond correctly to arguments in the reverse order.
    pub fn flip(&self) -> (r: Self)
        ensures
            match *self {
                MapJointTransform::Generic(f, flipped) => r matches MapJointTransform::Generic(g, b) && b == !flipped && cloned(f, g),
                MapJointTransform::UnchangedLR(x) => r matches MapJointTransform::UnchangedLR(y) && cloned(x, y),
                MapJointTransform::UnchangedL(x) => r matches MapJointTransform::UnchangedR(y) && cloned(x, y),
                MapJointTransform::UnchangedR(x) => r matches MapJointTransform::UnchangedL(y) && cloned(x, y),
                MapJointTransform::Removed(x) => r matches MapJointTransform::Removed(y) && cloned(x, y),
            },
    {
        match self {
            MapJointTransform::Generic(f, flipped) => MapJointTransform::Generic(f.clone(), !*flipped),
            MapJointTransform::UnchangedLR(r) => MapJointTransform::UnchangedLR(r.clone()),
            MapJointTransform::UnchangedL(r) => MapJointTransform::UnchangedR(r.clone()),
            MapJointTransform::UnchangedR(r) => MapJointTransform::UnchangedL(r.clone()),
            MapJointTransform::Removed(r) => MapJointTransform::Removed(r.clone()),
        }
    }
}

impl<ReduceT, F> MapJointTransform<ReduceT, F> {
    /// The joint transformation for the arguments in the reverse order, which
    /// `flip` makes up to clones: the flag of a generic one toggled, and
    /// `UnchangedL` and `UnchangedR` exchanged.
    pub open spec fn spec_flip(self) -> Self {
        match self {
            MapJointTransform::Generic(f, flipped) => MapJointTransform::Generic(f, !flipped),
            MapJointTransform::UnchangedLR(x) => MapJointTransform::UnchangedLR(x),
            MapJointTransform::UnchangedL(x) => MapJointTransform::UnchangedR(x),
            MapJointTransform::UnchangedR(x) => MapJointTransform::UnchangedL(x),
            MapJointTransform::Removed(x) => MapJointTransform::Removed(x),
        }
    }

    /// The joint transformation may be run on the left entry `(k, v)` and the right entry `(l, w)`.
    pub open spec fn accepts<K, V>(self, k: K, v: V, l: K, w: V) -> bool where
        F: Fn(&K, &V, &K, &V) -> MapJointTransformResult<V, ReduceT>,
     {
        match self {
            MapJointTransform::Generic(f, flipped) => if flipped {
                f.requires((&l, &w, &k, &v))
            } else {
                f.requires((&k, &v, &l, &w))
            },
            _ => true,
        }
    }

    /// `r` is a result that the joint transformation may give for the left entry
    /// `(k, v)` and the right entry `(l, w)`.
    pub open spec fn gives<K, V>(self, k: K, v: V, l: K, w: V, r: MapJointTransformResult<V, ReduceT>) -> bool where
        F: Fn(&K, &V, &K, &V) -> MapJointTransformResult<V, ReduceT>,
     {
        match self {
            MapJointTransform::Generic(f, flipped) => if flipped {
                f.ensures((&l, &w, &k, &v), r.spec_flip())
            } else {
                f.ensures((&k, &v, &l, &w), r)
            },
            MapJointTransform::UnchangedLR(_) => r is UnchangedLR,
            MapJointTransform::UnchangedL(_) => r is UnchangedL,
            MapJointTransform::UnchangedR(_) => r is UnchangedR,
            MapJointTransform::Removed(_) => r is Removed,
        }
    }
}

/// The entry for `k` is `after` once the joint transformation has run on the
/// left entry `left` and the right entry `right`: an entry on both sides holds
/// what a result of `both_op` on them allows, an entry on one side only what a
/// result of that side's transformation says, and no entry stays absent.
pub open spec fn joint_transformed_entry<K, V, ReduceT, BothOp, LeftOp, RightOp>(
    both_op: MapJointTransform<ReduceT, BothOp>,
    left_op: MapTransform<ReduceT, LeftOp>,
    right_op: MapTransform<ReduceT, RightOp>,
    k: K,
    left: Option<V>,
    right: Option<V>,
    after: Option<V>,
) -> bool where
    BothOp: Fn(&K, &V, &K, &V) -> MapJointTransformResult<V, ReduceT>,
    LeftOp: Fn(&K, &V) -> MapTransformResult<V, ReduceT>,
    RightOp: Fn(&K, &V) -> MapTransformResult<V, ReduceT>,
 {
    match left {
        Some(v) => match right {
            Some(w) => exists|r: MapJointTransformResult<V, ReduceT>| #[trigger] both_op.gives(k, v, k, w, r) && r.allows(v, w, after),
            None => transformed_entry(left_op, k, Some(v), after),
        },
        None => match right {
            Some(w) => transformed_entry(right_op, k, Some(w), after),
            None => after is None,
        },
    }
}

/// `new` is the joint transformation of the maps `lm` and `rm`, entry by entry.
pub open spec fn joint_transformed_map<K, V, ReduceT, BothOp, LeftOp, RightOp>(
    both_op: MapJointTransform<ReduceT, BothOp>,
    left_op: MapTransform<ReduceT, LeftOp>,
    right_op: MapTransform<ReduceT, RightOp>,
    lm: Map<K, V>,
    rm: Map<K, V>,
    new: Map<K, V>,
) -> bool where
    BothOp: Fn(&K, &V, &K, &V) -> MapJointTransformResult<V, ReduceT>,
    LeftOp: Fn(&K, &V) -> MapTransformResult<V, ReduceT>,
    RightOp: Fn(&K, &V) -> MapTransformResult<V, ReduceT>,
 {
    forall|k: K|
        #![trigger lm.dom().contains(k)]
        #![trigger rm.dom().contains(k)]
        #![trigger new.dom().contains(k)]
        joint_transformed_entry(both_op, left_op, right_op, k, lm.get(k), rm.get(k), new.get(k))
}

/// Each transformation may be run on the entries that it is run on: `both_op`
/// on the keys of both maps, `left_op` and `right_op` on those of one map only.
pub open spec fn joint_accepts_all<K, V, ReduceT, BothOp, LeftOp, RightOp>(
    both_op: MapJointTransform<ReduceT, BothOp>,
    left_op: MapTransform<ReduceT, LeftOp>,
    right_op: MapTransform<ReduceT, RightOp>,
    lm: Map<K, V>,
    rm: Map<K, V>,
) -> bool where
    BothOp: Fn(&K, &V, &K, &V) -> MapJointTransformResult<V, ReduceT>,
    LeftOp: Fn(&K, &V) -> MapTransformResult<V, ReduceT>,
    RightOp: Fn(&K, &V) -> MapTransformResult<V, ReduceT>,
 {
    forall|k: K|
        #![trigger lm.dom().contains(k)]
        #![trigger rm.dom().contains(k)]
        {
            &&& lm.dom().contains(k) && rm.dom().contains(k) ==> both_op.accepts(k, lm[k], k, rm[k])
            &&& lm.dom().contains(k) && !rm.dom().contains(k) ==> left_op.accepts(k, lm[k])
            &&& !lm.dom().contains(k) && rm.dom().contains(k) ==> right_op.accepts(k, rm[k])
        }
}

/// Construct a generic joint transformation.
pub fn new_map_joint_transform_generic<K, V, ReduceT: Clone, F: Fn(&K, &V, &K, &V) -> MapJointTransformResult<V, ReduceT> + Clone>(f: F) -> (r: MapJointTransform<ReduceT, F>)
    ensures
        r == MapJointTransform::<ReduceT, F>::Generic(f, false),
{
    MapJointTransform::Generic(f, false)
}

/// Construct a left/right indifferent identity joint transformation.
pub fn new_map_joint_transform_unchangedlr<ReduceT: Clone, F>(r: ReduceT) -> (t: MapJointTransform<ReduceT, F>)
    ensures
        t == MapJointTransform::<ReduceT, F>::UnchangedLR(r),
{
    MapJointTransform::UnchangedLR(r)
}

/// Construct a left-identity joint transformation.
pub fn new_map_joint_transform_unchangedl<ReduceT: Clone, F>(r: ReduceT) -> (t: MapJointTransform<ReduceT, F>)
    ensures
        t == MapJointTransform::<ReduceT, F>::UnchangedL(r),
{
    MapJointTransform::UnchangedL(r)
}

/// Construct a right-identity joint transformation.
pub fn new_map_joint_transform_unchangedr<ReduceT: Clone, F>(r: ReduceT) -> (t: MapJointTransform<ReduceT, F>)
    ensures
        t == MapJointTransform::<ReduceT, F>::UnchangedR(r),
{
    MapJointTransform::UnchangedR(r)
}

/// Construct a null joint transformation.
pub fn new_map_joint_transform_removed<ReduceT: Clone, F>(r: ReduceT) -> (t: MapJointTransform<ReduceT, F>)
    ensures
        t == MapJointTransform::<ReduceT, F>::Removed(r),
{
    MapJointTransform::Removed(r)
}

/// `MapTransform` represents a transformation that can be run on a map.
pub enum MapTransform<ReduceT, F> {
    /// `MapTransform::Generic` can store an arbitrary transformation. The other values should be preferred when applicable, since they can open up optimization potential.
    Generic(F),
    /// `MapTransform::Unchanged` indicates the old value should be reused in the new map.
    Unchanged(ReduceT),
    /// `MapTransform::Removed` indicates the value should be removed from the map.
    Removed(ReduceT),
}

impl<ReduceT: Clone, F> MapTransform<ReduceT, F> {
    /// Call the transformation and return a result.
    pub fn call<K, V>(&self, k: &K, v: &V) -> (r: MapTransformResult<V, ReduceT>) where
        F: Fn(&K, &V) -> MapTransformResult<V, ReduceT>,

        requires
            self matches MapTransform::Generic(f) ==> f.requires((k, v)),
        ensures
            match *self {
                MapTransform::Generic(f) => f.ensures((k, v), r),
                MapTransform::Unchanged(x) => r matches MapTransformResult::Unchanged(y) && cloned(x, y),
                MapTransform::Removed(x) => r matches MapTransformResult::Removed(y) && cloned(x, y),
            },
    {
        match self {
            MapTransform::Generic(f) => f(k, v),
            MapTransform::Unchanged(r) => MapTransformResult::Unchanged(r.clone()),
            MapTransform::Removed(r) => MapTransformResult::Removed(r.clone()),
        }
    }

    /// Call the joint transformation/transmutation and return a result.
    pub fn call_transform_transmute<K, V, L, W>(&self, k: &K, v: &V, l: &L, w: &W) -> (r: MapTransformResult<V, ReduceT>) where
        F: Fn(&K, &V, &L, &W) -> MapTransformResult<V, ReduceT>,

        requires
            self matches MapTransform::Generic(f) ==> f.requires((k, v, l, w)),
        ensures
            match *self {
                MapTransform::Generic(f) => f.ensures((k, v, l, w), r),
                MapTransform::Unchanged(x) => r matches MapTransformResult::Unchanged(y) && cloned(x, y),
                MapTransform::Removed(x) => r matches MapTransformResult::Removed(y) && cloned(x, y),
            },
    {
        match self {
            MapTransform::Generic(f) => f(k, v, l, w),
            MapTransform::Unchanged(r) => MapTransformResult::Unchanged(r.clone()),
            MapTransform::Removed(r) => MapTransformResult::Removed(r.clone()),
        }
    }

    /// Call the joint transmutation/transformation and return a result.
    pub fn call_transmute_transform<K, V, L, W>(&self, k: &K, v: &V, l: &L, w: &W) -> (r: MapTransformResult<W, ReduceT>) where
        F: Fn(&K, &V, &L, &W) -> MapTransformResult<W, ReduceT>,

        requires
            self matches MapTransform::Generic(f) ==> f.requires((k, v, l, w)),
        ensures
            match *self {
                MapTransform::Generic(f) => f.ensures((k, v, l, w), r),
                MapTransform::Unchanged(x) => r matches MapTransformResult::Unchanged(y) && cloned(x, y),
                MapTransform::Removed(x) => r matches MapTransformResult::Removed(y) && cloned(x, y),
            },
    {
        match self {
            MapTransform::Generic(f) => f(k, v, l, w),
            MapTransform::Unchanged(r) => MapTransformResult::Unchanged(r.clone()),
            MapTransform::Removed(r) => MapTransformResult::Removed(r.clone()),
        }
    }

    /// Flip the joint transformation/transmutation so it can respond correctly to arguments in the reverse order.
    pub fn flip_transform_transmute<'a, K, V, L, W>(&'a self) -> (r: MapTransform<
        ReduceT,
        impl Fn(&L, &W, &K, &V) -> MapTransformResult<V, ReduceT> + Clone + 'a,
    >) where
        F: Fn(&K, &V, &L, &W) -> MapTransformResult<V, ReduceT>,

        ensures
            self.flips_transform_transmute::<K, V, L, W, _>(r),
    {
        match self {
            MapTransform::Generic(f) => MapTransform::Generic(move |l: &L, w: &W, k: &K, v: &V| -> (out: MapTransformResult<V, ReduceT>)
                requires
                    f.requires((k, v, l, w)),
                ensures
                    f.ensures((k, v, l, w), out),
                {
                    f(k, v, l, w)
                }),
            MapTransform::Unchanged(r) => MapTransform::Unchanged(r.clone()),
            MapTransform::Removed(r) => MapTransform::Removed(r.clone()),
        }
    }

    /// Flip the joint transmutation/transformation so it can respond correctly to arguments in the reverse order.
    pub fn flip_transmute_transform<'a, K, V, L, W>(&'a self) -> (r: MapTransform<
        ReduceT,
        impl Fn(&L, &W, &K, &V) -> MapTransformResult<W, ReduceT> + Clone + 'a,
    >) where
        F: Fn(&K, &V, &L, &W) -> MapTransformResult<W, ReduceT>,

        ensures
            self.flips_transmute_transform::<K, V, L, W, _>(r),
    {
        match self {
            MapTransform::Generic(f) => MapTransform::Generic(move |l: &L, w: &W, k: &K, v: &V| -> (out: MapTransformResult<W, ReduceT>)
                requires
                    f.requires((k, v, l, w)),
                ensures
                    f.ensures((k, v, l, w), out),
                {
                    f(k, v, l, w)
                }),
            MapTransform::Unchanged(r) => MapTransform::Unchanged(r.clone()),
            MapTransform::Removed(r) => MapTransform::Removed(r.clone()),
        }
    }
}

impl<ReduceT, F> MapTransform<ReduceT, F> {
    /// The transformation may be run on the entry `(k, v)`.
    pub open spec fn accepts<K, V>(self, k: K, v: V) -> bool where
        F: Fn(&K, &V) -> MapTransformResult<V, ReduceT>,
     {
        self matches MapTransform::Generic(f) ==> f.requires((&k, &v))
    }

    /// `r` is a result that the transformation may give for the entry `(k, v)`.
    pub open spec fn gives<K, V>(self, k: K, v: V, r: MapTransformResult<V, ReduceT>) -> bool where
        F: Fn(&K, &V) -> MapTransformResult<V, ReduceT>,
     {
        match self {
            MapTransform::Generic(f) => f.ensures((&k, &v), r),
            MapTransform::Unchanged(_) => r is Unchanged,
            MapTransform::Removed(_) => r is Removed,
        }
    }
}

/// The entry for `k` is `after` once the transformation has run on the entry
/// `before`: an absent entry stays absent, and a present one holds what a result
/// that the transformation may give for it says.
pub open spec fn transformed_entry<K, V, ReduceT, F>(
    op: MapTransform<ReduceT, F>,
    k: K,
    before: Option<V>,
    after: Option<V>,
) -> bool where F: Fn(&K, &V) -> MapTransformResult<V, ReduceT> {
    match before {
        None => after is None,
        Some(v) => exists|r: MapTransformResult<V, ReduceT>| #[trigger] op.gives(k, v, r) && r.applied_to(v) == after,
    }
}

/// `new` is `old` with the transformation run on each entry.
pub open spec fn transformed_map<K, V, ReduceT, F>(
    op: MapTransform<ReduceT, F>,
    old: Map<K, V>,
    new: Map<K, V>,
) -> bool where F: Fn(&K, &V) -> MapTransformResult<V, ReduceT> {
    forall|k: K|
        #![trigger old.dom().contains(k)]
        #![trigger new.dom().contains(k)]
        transformed_entry(op, k, old.get(k), new.get(k))
}

/// The transformation may be run on every entry of `m`.
pub open spec fn accepts_all<K, V, ReduceT, F>(op: MapTransform<ReduceT, F>, m: Map<K, V>) -> bool where
    F: Fn(&K, &V) -> MapTransformResult<V, ReduceT>,
 {
    forall|k: K| #[trigger] m.dom().contains(k) ==> op.accepts(k, m[k])
}

/// `y` is a secondary value that the transformation may give for the entry
/// `(k, v)`: one that the generic operation's result holds, or a copy of the
/// constant operation's value.
pub open spec fn transform_entry_reduced<K, V, ReduceT: Clone, F: Fn(&K, &V) -> MapTransformResult<V, ReduceT>>(
    op: MapTransform<ReduceT, F>,
    k: K,
    v: V,
    y: ReduceT,
) -> bool {
    match op {
        MapTransform::Generic(f) => exists|r: MapTransformResult<V, ReduceT>| #[trigger]
            f.ensures((&k, &v), r) && r.reduced() == y,
        MapTransform::Unchanged(x) => cloned(x, y),
        MapTransform::Removed(x) => cloned(x, y),
    }
}

/// `y` may stand for no entry in a reduction of the values of a
/// transformation: a default value.
pub open spec fn transform_other_reduced<ReduceT: Clone + Default, F>(op: MapTransform<ReduceT, F>, y: ReduceT) -> bool {
    call_ensures(ReduceT::default, (), y)
}

/// Which values the transformation may give for the entries of `m`, as the
/// reductions in `reduction_fits` ask.
pub open spec fn transform_entries_ok<K, V, ReduceT: Clone, F: Fn(&K, &V) -> MapTransformResult<V, ReduceT>>(
    op: MapTransform<ReduceT, F>,
    m: Map<K, V>,
) -> spec_fn(K, ReduceT) -> bool {
    |k: K, y: ReduceT| transform_entry_reduced(op, k, m[k], y)
}

/// Which values may stand for no entry in a reduction of the values of the
/// transformation, as the reductions in `reduction_fits` ask.
pub open spec fn transform_others_ok<ReduceT: Clone + Default, F>(op: MapTransform<ReduceT, F>) -> spec_fn(ReduceT) -> bool {
    |y: ReduceT| transform_other_reduced(op, y)
}

/// `r` is a reduction by `reduce_op` of secondary values that the
/// transformation gave on the entries of `m`, with default values: of exactly
/// one value for each entry, a copy of the constant where the operation is
/// constant.
pub open spec fn transform_reduced<K, V, ReduceT: Clone + Default, RO, F>(
    reduce_op: RO,
    op: MapTransform<ReduceT, F>,
    m: Map<K, V>,
    r: ReduceT,
) -> bool where RO: Fn(&ReduceT, &ReduceT) -> ReduceT, F: Fn(&K, &V) -> MapTransformResult<V, ReduceT> {
    exists|t: Reduction<K, ReduceT>|
        #![trigger t.combines(reduce_op)]
        reduction_fits(
            t,
            reduce_op,
            m.dom(),
            transform_entries_ok(op, m),
            transform_others_ok(op),
        )
            && t.value() == r
}

/// `y` is a secondary value that the transmutation may give for the entry
/// `(k, v)`: one that the generic operation's result holds, or a copy of the
/// constant operation's value.
pub open spec fn transmute_entry_reduced<K, V, S, X, ReduceT: Clone, F: Fn(&K, &V) -> MapTransmuteResult<S, X, ReduceT>>(
    op: MapTransmute<ReduceT, F>,
    k: K,
    v: V,
    y: ReduceT,
) -> bool {
    match op {
        MapTransmute::Generic(f) => exists|r: MapTransmuteResult<S, X, ReduceT>| #[trigger]
            f.ensures((&k, &v), r) && r.reduced() == y,
        MapTransmute::Removed(x) => cloned(x, y),
    }
}

/// `y` may stand for no entry in a reduction of the values of a
/// transmutation: a default value.
pub open spec fn transmute_other_reduced<ReduceT: Clone + Default, F>(op: MapTransmute<ReduceT, F>, y: ReduceT) -> bool {
    call_ensures(ReduceT::default, (), y)
}

/// Which values the transmutation may give for the entries whose values
/// `look` gives, as the reductions in `reduction_fits` ask.
pub open spec fn transmute_entries_ok<K, V, S, X, ReduceT: Clone, F: Fn(&K, &V) -> MapTransmuteResult<S, X, ReduceT>>(
    op: MapTransmute<ReduceT, F>,
    look: spec_fn(K) -> Option<V>,
) -> spec_fn(K, ReduceT) -> bool {
    |k: K, y: ReduceT| transmute_entry_reduced(op, k, look(k)->Some_0, y)
}

/// Which values may stand for no entry in a reduction of the values of the
/// transmutation, as the reductions in `reduction_fits` ask.
pub open spec fn transmute_others_ok<ReduceT: Clone + Default, F>(op: MapTransmute<ReduceT, F>) -> spec_fn(ReduceT) -> bool {
    |y: ReduceT| transmute_other_reduced(op, y)
}

/// The keys for which `look` gives a value.
pub open spec fn lookup_keys<K, V>(look: spec_fn(K) -> Option<V>) -> Set<K> {
    Set::new(|k: K| look(k) is Some)
}

/// `r` is a reduction by `reduce_op` of secondary values that the
/// transmutation gave on the entries whose values `look` gives, with default
/// values: of exactly one value for each entry, a copy of the constant where
/// the operation is constant.
pub open spec fn transmute_reduced_at<K, V, S, X, ReduceT: Clone + Default, RO, F>(
    reduce_op: RO,
    op: MapTransmute<ReduceT, F>,
    look: spec_fn(K) -> Option<V>,
    r: ReduceT,
) -> bool where RO: Fn(&ReduceT, &ReduceT) -> ReduceT, F: Fn(&K, &V) -> MapTransmuteResult<S, X, ReduceT> {
    exists|t: Reduction<K, ReduceT>|
        #![trigger t.combines(reduce_op)]
        reduction_fits(
            t,
            reduce_op,
            lookup_keys(look),
            transmute_entries_ok(op, look),
            transmute_others_ok(op),
        )
            && t.value() == r
}

/// `r` is a reduction by `reduce_op` of secondary values that the
/// transmutation gave on the entries of `m`, with default values, as
/// `transmute_reduced_at` says.
pub open spec fn transmute_reduced<K, V, S, X, ReduceT: Clone + Default, RO, F>(
    reduce_op: RO,
    op: MapTransmute<ReduceT, F>,
    m: Map<K, V>,
    r: ReduceT,
) -> bool where RO: Fn(&ReduceT, &ReduceT) -> ReduceT, F: Fn(&K, &V) -> MapTransmuteResult<S, X, ReduceT> {
    transmute_reduced_at(reduce_op, op, |k: K| m.get(k), r)
}

/// `y` is a secondary value that the joint transformation may give for the
/// entries `(k, v)` on the left and `(k, w)` on the right: one that the generic
/// operation's result holds, or a copy of the constant operation's value.
pub open spec fn joint_both_reduced<K, V, ReduceT: Clone, F: Fn(&K, &V, &K, &V) -> MapJointTransformResult<V, ReduceT>>(
    op: MapJointTransform<ReduceT, F>,
    k: K,
    v: V,
    w: V,
    y: ReduceT,
) -> bool {
    match op {
        MapJointTransform::Generic(_, _) => exists|r: MapJointTransformResult<V, ReduceT>| #[trigger]
            op.gives(k, v, k, w, r) && r.reduced() == y,
        MapJointTransform::UnchangedLR(x) => cloned(x, y),
        MapJointTransform::UnchangedL(x) => cloned(x, y),
        MapJointTransform::UnchangedR(x) => cloned(x, y),
        MapJointTransform::Removed(x) => cloned(x, y),
    }
}

/// `y` is a secondary value that the joint transformation may give for the
/// key `k`, whose values on the left and on the right are `lv` and `rv`.
pub open spec fn joint_entry_reduced<K, V, ReduceT: Clone, B, LF, RF>(
    both_op: MapJointTransform<ReduceT, B>,
    left_op: MapTransform<ReduceT, LF>,
    right_op: MapTransform<ReduceT, RF>,
    k: K,
    lv: Option<V>,
    rv: Option<V>,
    y: ReduceT,
) -> bool where
    B: Fn(&K, &V, &K, &V) -> MapJointTransformResult<V, ReduceT>,
    LF: Fn(&K, &V) -> MapTransformResult<V, ReduceT>,
    RF: Fn(&K, &V) -> MapTransformResult<V, ReduceT>,
 {
    match lv {
        Some(v) => match rv {
            Some(w) => joint_both_reduced(both_op, k, v, w, y),
            None => transform_entry_reduced(left_op, k, v, y),
        },
        None => match rv {
            Some(w) => transform_entry_reduced(right_op, k, w, y),
            None => false,
        },
    }
}

/// `y` may stand for no entry in a reduction of the values of a joint
/// transformation: a default value.
pub open spec fn joint_other_reduced<ReduceT: Clone + Default, B, LF, RF>(
    both_op: MapJointTransform<ReduceT, B>,
    left_op: MapTransform<ReduceT, LF>,
    right_op: MapTransform<ReduceT, RF>,
    y: ReduceT,
) -> bool {
    call_ensures(ReduceT::default, (), y)
}

/// Which values the joint transformation may give for the keys whose values
/// `lk` and `rk` give, as the reductions in `reduction_fits` ask.
pub open spec fn joint_entries_ok<K, V, ReduceT: Clone, B, LF, RF>(
    both_op: MapJointTransform<ReduceT, B>,
    left_op: MapTransform<ReduceT, LF>,
    right_op: MapTransform<ReduceT, RF>,
    lk: spec_fn(K) -> Option<V>,
    rk: spec_fn(K) -> Option<V>,
) -> spec_fn(K, ReduceT) -> bool where
    B: Fn(&K, &V, &K, &V) -> MapJointTransformResult<V, ReduceT>,
    LF: Fn(&K, &V) -> MapTransformResult<V, ReduceT>,
    RF: Fn(&K, &V) -> MapTransformResult<V, ReduceT>,
 {
    |k: K, y: ReduceT| joint_entry_reduced(both_op, left_op, right_op, k, lk(k), rk(k), y)
}

/// Which values may stand for no entry in a reduction of the values of the
/// joint transformation, as the reductions in `reduction_fits` ask.
pub open spec fn joint_others_ok<ReduceT: Clone + Default, B, LF, RF>(
    both_op: MapJointTransform<ReduceT, B>,
    left_op: MapTransform<ReduceT, LF>,
    right_op: MapTransform<ReduceT, RF>,
) -> spec_fn(ReduceT) -> bool {
    |y: ReduceT| joint_other_reduced(both_op, left_op, right_op, y)
}

/// `r` is a reduction by `reduce_op` of secondary values that the joint
/// transformation gave on the keys whose values `lk` and `rk` give, with
/// default values: of exactly one value for each key.
pub open spec fn joint_reduced_at<K, V, ReduceT: Clone + Default, RO, B, LF, RF>(
    reduce_op: RO,
    both_op: MapJointTransform<ReduceT, B>,
    left_op: MapTransform<ReduceT, LF>,
    right_op: MapTransform<ReduceT, RF>,
    lk: spec_fn(K) -> Option<V>,
    rk: spec_fn(K) -> Option<V>,
    r: ReduceT,
) -> bool where
    RO: Fn(&ReduceT, &ReduceT) -> ReduceT,
    B: Fn(&K, &V, &K, &V) -> MapJointTransformResult<V, ReduceT>,
    LF: Fn(&K, &V) -> MapTransformResult<V, ReduceT>,
    RF: Fn(&K, &V) -> MapTransformResult<V, ReduceT>,
 {
    exists|t: Reduction<K, ReduceT>|
        #![trigger t.combines(reduce_op)]
        reduction_fits(
            t,
            reduce_op,
            lookup_keys(lk).union(lookup_keys(rk)),
            joint_entries_ok(both_op, left_op, right_op, lk, rk),
            joint_others_ok(both_op, left_op, right_op),
        ) && t.value() == r
}

/// `r` is a reduction by `reduce_op` of secondary values that the joint
/// transformation gave on the keys of `lm` and `rm`, with default values, as
/// `joint_reduced_at` says.
pub open spec fn joint_reduced<K, V, ReduceT: Clone + Default, RO, B, LF, RF>(
    reduce_op: RO,
    both_op: MapJointTransform<ReduceT, B>,
    left_op: MapTransform<ReduceT, LF>,
    right_op: MapTransform<ReduceT, RF>,
    lm: Map<K, V>,
    rm: Map<K, V>,
    r: ReduceT,
) -> bool where
    RO: Fn(&ReduceT, &ReduceT) -> ReduceT,
    B: Fn(&K, &V, &K, &V) -> MapJointTransformResult<V, ReduceT>,
    LF: Fn(&K, &V) -> MapTransformResult<V, ReduceT>,
    RF: Fn(&K, &V) -> MapTransformResult<V, ReduceT>,
 {
    joint_reduced_at(reduce_op, both_op, left_op, right_op, |k: K| lm.get(k), |k: K| rm.get(k), r)
}

/// `y` is a copy of `x`, or a copy of a copy of it.
pub open spec fn copied<ReduceT: Clone>(x: ReduceT, y: ReduceT) -> bool {
    cloned(x, y) || exists|z: ReduceT| cloned(x, z) && #[trigger] cloned(z, y)
}

/// `y` is a secondary value that the operation on the entries `(k, v)` on the
/// left and `(k, w)` on the right of `transform_with_transfuted` or
/// `transform_with_transmuted` may give: one that the generic operation's
/// result holds, or a copy of the constant operation's value.
pub open spec fn transform_transmute_entry_reduced<K, V, W, ReduceT: Clone, F>(
    op: MapTransform<ReduceT, F>,
    k: K,
    v: V,
    w: W,
    y: ReduceT,
) -> bool where F: Fn(&K, &V, &K, &W) -> MapTransformResult<V, ReduceT> {
    match op {
        MapTransform::Generic(f) => exists|r: MapTransformResult<V, ReduceT>| #[trigger]
            f.ensures((&k, &v, &k, &w), r) && r.reduced() == y,
        MapTransform::Unchanged(x) => cloned(x, y),
        MapTransform::Removed(x) => cloned(x, y),
    }
}

/// `y` is a secondary value that the operation on the entries `(k, v)` on the
/// left and `(k, w)` on the right of `transfute_with_transformed` or
/// `transmute_with_transformed` may give: one that the generic operation's
/// result holds, or a copy of the constant operation's value.
pub open spec fn transmute_transform_entry_reduced<K, V, W, ReduceT: Clone, F>(
    op: MapTransform<ReduceT, F>,
    k: K,
    v: V,
    w: W,
    y: ReduceT,
) -> bool where F: Fn(&K, &V, &K, &W) -> MapTransformResult<W, ReduceT> {
    match op {
        MapTransform::Generic(f) => exists|r: MapTransformResult<W, ReduceT>| #[trigger]
            f.ensures((&k, &v, &k, &w), r) && r.reduced() == y,
        MapTransform::Unchanged(x) => copied(x, y),
        MapTransform::Removed(x) => copied(x, y),
    }
}

/// `y` is a secondary value that the transmutation of values may give for the
/// entry `(k, w)`: one that the generic operation's result holds, or a copy of
/// the constant operation's value.
pub open spec fn set_transmute_entry_reduced<K, W, X, ReduceT: Clone, F: Fn(&K, &W) -> SetTransmuteResult<X, ReduceT>>(
    op: SetTransmute<ReduceT, F>,
    k: K,
    w: W,
    y: ReduceT,
) -> bool {
    match op {
        SetTransmute::Generic(f) => exists|r: SetTransmuteResult<X, ReduceT>| #[trigger]
            f.ensures((&k, &w), r) && r.reduced() == y,
        SetTransmute::Removed(x) => copied(x, y),
    }
}

/// `y` may stand for no entry in a reduction of the values of a transmutation
/// of values: a default value.
pub open spec fn set_transmute_other_reduced<ReduceT: Clone + Default, F>(op: SetTransmute<ReduceT, F>, y: ReduceT) -> bool {
    call_ensures(ReduceT::default, (), y)
}

/// Which values the operations may give for the keys whose values on the left
/// and on the right `lk` and `rk` give, where `pred` says which values the
/// operations may give for a key and its values.
pub open spec fn pair_entries_ok<K, V, W, ReduceT>(
    pred: spec_fn(K, Option<V>, Option<W>, ReduceT) -> bool,
    lk: spec_fn(K) -> Option<V>,
    rk: spec_fn(K) -> Option<W>,
) -> spec_fn(K, ReduceT) -> bool {
    |k: K, y: ReduceT| pred(k, lk(k), rk(k), y)
}

/// `r` is a reduction by `reduce_op` of values that `pred` allows for the keys
/// whose values on the left and on the right `lk` and `rk` give, with values
/// that `others` allows: of exactly one value for each key.
pub open spec fn pair_reduced_at<K, V, W, ReduceT, RO: Fn(&ReduceT, &ReduceT) -> ReduceT>(
    reduce_op: RO,
    pred: spec_fn(K, Option<V>, Option<W>, ReduceT) -> bool,
    others: spec_fn(ReduceT) -> bool,
    lk: spec_fn(K) -> Option<V>,
    rk: spec_fn(K) -> Option<W>,
    r: ReduceT,
) -> bool {
    exists|t: Reduction<K, ReduceT>|
        #![trigger t.combines(reduce_op)]
        reduction_fits(
            t,
            reduce_op,
            lookup_keys(lk).union(lookup_keys(rk)),
            pair_entries_ok(pred, lk, rk),
            others,
        )
            && t.value() == r
}

/// Which values `transform_with_transfuted` may give for a key with the value
/// `lv` on the left and `rv` on the right.
pub open spec fn transfuted_pred<K, V, W, ReduceT: Clone, B, LF, RF>(
    both_op: MapTransform<ReduceT, B>,
    left_op: MapTransform<ReduceT, LF>,
    right_op: SetTransmute<ReduceT, RF>,
) -> spec_fn(K, Option<V>, Option<W>, ReduceT) -> bool where
    B: Fn(&K, &V, &K, &W) -> MapTransformResult<V, ReduceT>,
    LF: Fn(&K, &V) -> MapTransformResult<V, ReduceT>,
    RF: Fn(&K, &W) -> SetTransmuteResult<V, ReduceT>,
 {
    |k: K, lv: Option<V>, rv: Option<W>, y: ReduceT|
        match lv {
            Some(v) => match rv {
                Some(w) => transform_transmute_entry_reduced(both_op, k, v, w, y),
                None => transform_entry_reduced(left_op, k, v, y),
            },
            None => match rv {
                Some(w) => set_transmute_entry_reduced(right_op, k, w, y),
                None => false,
            },
        }
}

/// Which values may stand for no entry in a reduction of `transform_with_transfuted`.
pub open spec fn transfuted_others<ReduceT: Clone + Default, LF, RF>(
    left_op: MapTransform<ReduceT, LF>,
    right_op: SetTransmute<ReduceT, RF>,
) -> spec_fn(ReduceT) -> bool {
    |y: ReduceT| transform_other_reduced(left_op, y) || set_transmute_other_reduced(right_op, y)
}

/// `r` is a reduction by `reduce_op` of secondary values that
/// `transform_with_transfuted` gave on the keys of `lm` and `rm`, with default
/// values, as `pair_reduced_at` says.
pub open spec fn transfuted_reduced<K, V, W, ReduceT: Clone + Default, RO, B, LF, RF>(
    reduce_op: RO,
    both_op: MapTransform<ReduceT, B>,
    left_op: MapTransform<ReduceT, LF>,
    right_op: SetTransmute<ReduceT, RF>,
    lm: Map<K, V>,
    rm: Map<K, W>,
    r: ReduceT,
) -> bool where
    RO: Fn(&ReduceT, &ReduceT) -> ReduceT,
    B: Fn(&K, &V, &K, &W) -> MapTransformResult<V, ReduceT>,
    LF: Fn(&K, &V) -> MapTransformResult<V, ReduceT>,
    RF: Fn(&K, &W) -> SetTransmuteResult<V, ReduceT>,
 {
    pair_reduced_at(
        reduce_op,
        transfuted_pred(both_op, left_op, right_op),
        transfuted_others(left_op, right_op),
        |k: K| lm.get(k),
        |k: K| rm.get(k),
        r,
    )
}

/// Which values `transfute_with_transformed` may give for a key with the value
/// `lv` on the left and `rv` on the right.
pub open spec fn transfute_pred<K, V, W, ReduceT: Clone, B, LF, RF>(
    both_op: MapTransform<ReduceT, B>,
    left_op: SetTransmute<ReduceT, LF>,
    right_op: MapTransform<ReduceT, RF>,
) -> spec_fn(K, Option<V>, Option<W>, ReduceT) -> bool where
    B: Fn(&K, &V, &K, &W) -> MapTransformResult<W, ReduceT>,
    LF: Fn(&K, &V) -> SetTransmuteResult<W, ReduceT>,
    RF: Fn(&K, &W) -> MapTransformResult<W, ReduceT>,
 {
    |k: K, lv: Option<V>, rv: Option<W>, y: ReduceT|
        match lv {
            Some(v) => match rv {
                Some(w) => transmute_transform_entry_reduced(both_op, k, v, w, y),
                None => set_transmute_entry_reduced(left_op, k, v, y),
            },
            None => match rv {
                Some(w) => transform_entry_reduced(right_op, k, w, y),
                None => false,
            },
        }
}

/// Which values may stand for no entry in a reduction of `transfute_with_transformed`.
pub open spec fn transfute_others<ReduceT: Clone + Default, LF, RF>(
    left_op: SetTransmute<ReduceT, LF>,
    right_op: MapTransform<ReduceT, RF>,
) -> spec_fn(ReduceT) -> bool {
    |y: ReduceT| set_transmute_other_reduced(left_op, y) || transform_other_reduced(right_op, y)
}

/// `r` is a reduction by `reduce_op` of secondary values that
/// `transfute_with_transformed` gave on the keys of `lm` and `rm`, with
/// default values, as `pair_reduced_at` says.
pub open spec fn transfute_reduced<K, V, W, ReduceT: Clone + Default, RO, B, LF, RF>(
    reduce_op: RO,
    both_op: MapTransform<ReduceT, B>,
    left_op: SetTransmute<ReduceT, LF>,
    right_op: MapTransform<ReduceT, RF>,
    lm: Map<K, V>,
    rm: Map<K, W>,
    r: ReduceT,
) -> bool where
    RO: Fn(&ReduceT, &ReduceT) -> ReduceT,
    B: Fn(&K, &V, &K, &W) -> MapTransformResult<W, ReduceT>,
    LF: Fn(&K, &V) -> SetTransmuteResult<W, ReduceT>,
    RF: Fn(&K, &W) -> MapTransformResult<W, ReduceT>,
 {
    pair_reduced_at(
        reduce_op,
        transfute_pred(both_op, left_op, right_op),
        transfute_others(left_op, right_op),
        |k: K| lm.get(k),
        |k: K| rm.get(k),
        r,
    )
}

/// `y` is a secondary value that the joint transmutation may give for the
/// entries `(k, v)` on the left and `(k, w)` on the right: one that the generic
/// operation's result holds, or a copy of the constant operation's value.
pub open spec fn joint_transmute_entry_reduced<K, V, W, S, X, ReduceT: Clone, F>(
    op: MapTransmute<ReduceT, F>,
    k: K,
    v: V,
    w: W,
    y: ReduceT,
) -> bool where F: Fn(&K, &V, &K, &W) -> MapTransmuteResult<S, X, ReduceT> {
    match op {
        MapTransmute::Generic(f) => exists|r: MapTransmuteResult<S, X, ReduceT>| #[trigger]
            f.ensures((&k, &v, &k, &w), r) && r.reduced() == y,
        MapTransmute::Removed(x) => cloned(x, y),
    }
}

/// Which values `transmute_with_transmuted` may give for a key with the value
/// `lv` on the left and `rv` on the right.
pub open spec fn joint_transmute_pred<K, V, W, S, X, ReduceT: Clone, B, LF, RF>(
    both_op: MapTransmute<ReduceT, B>,
    left_op: MapTransmute<ReduceT, LF>,
    right_op: MapTransmute<ReduceT, RF>,
) -> spec_fn(K, Option<V>, Option<W>, ReduceT) -> bool where
    B: Fn(&K, &V, &K, &W) -> MapTransmuteResult<S, X, ReduceT>,
    LF: Fn(&K, &V) -> MapTransmuteResult<S, X, ReduceT>,
    RF: Fn(&K, &W) -> MapTransmuteResult<S, X, ReduceT>,
 {
    |k: K, lv: Option<V>, rv: Option<W>, y: ReduceT|
        match lv {
            Some(v) => match rv {
                Some(w) => joint_transmute_entry_reduced(both_op, k, v, w, y),
                None => transmute_entry_reduced(left_op, k, v, y),
            },
            None => match rv {
                Some(w) => transmute_entry_reduced(right_op, k, w, y),
                None => false,
            },
        }
}

/// Which values may stand for no entry in a reduction of `transmute_with_transmuted`.
pub open spec fn joint_transmute_others<ReduceT: Clone + Default, LF, RF>(
    left_op: MapTransmute<ReduceT, LF>,
    right_op: MapTransmute<ReduceT, RF>,
) -> spec_fn(ReduceT) -> bool {
    |y: ReduceT| transmute_other_reduced(left_op, y) || transmute_other_reduced(right_op, y)
}

/// `r` is a reduction by `reduce_op` of secondary values that
/// `transmute_with_transmuted` gave on the keys of `lm` and `rm`, with default
/// values, as `pair_reduced_at` says.
pub open spec fn joint_transmute_reduced<K, V, W, S, X, ReduceT: Clone + Default, RO, B, LF, RF>(
    reduce_op: RO,
    both_op: MapTransmute<ReduceT, B>,
    left_op: MapTransmute<ReduceT, LF>,
    right_op: MapTransmute<ReduceT, RF>,
    lm: Map<K, V>,
    rm: Map<K, W>,
    r: ReduceT,
) -> bool where
    RO: Fn(&ReduceT, &ReduceT) -> ReduceT,
    B: Fn(&K, &V, &K, &W) -> MapTransmuteResult<S, X, ReduceT>,
    LF: Fn(&K, &V) -> MapTransmuteResult<S, X, ReduceT>,
    RF: Fn(&K, &W) -> MapTransmuteResult<S, X, ReduceT>,
 {
    pair_reduced_at(
        reduce_op,
        joint_transmute_pred(both_op, left_op, right_op),
        joint_transmute_others(left_op, right_op),
        |k: K| lm.get(k),
        |k: K| rm.get(k),
        r,
    )
}

/// Which values `transform_with_transmuted` may give for a key with the value
/// `lv` on the left and `rv` on the right.
pub open spec fn transform_transmute_pred<K, V, W, ReduceT: Clone, B, LF, RF>(
    both_op: MapTransform<ReduceT, B>,
    left_op: MapTransform<ReduceT, LF>,
    right_op: MapTransmute<ReduceT, RF>,
) -> spec_fn(K, Option<V>, Option<W>, ReduceT) -> bool where
    B: Fn(&K, &V, &K, &W) -> MapTransformResult<V, ReduceT>,
    LF: Fn(&K, &V) -> MapTransformResult<V, ReduceT>,
    RF: Fn(&K, &W) -> MapTransmuteResult<K, V, ReduceT>,
 {
    |k: K, lv: Option<V>, rv: Option<W>, y: ReduceT|
        match lv {
            Some(v) => match rv {
                Some(w) => transform_transmute_entry_reduced(both_op, k, v, w, y),
                None => transform_entry_reduced(left_op, k, v, y),
            },
            None => match rv {
                Some(w) => transmute_entry_reduced(right_op, k, w, y),
                None => false,
            },
        }
}

/// Which values may stand for no entry in a reduction of `transform_with_transmuted`.
pub open spec fn transform_transmute_others<ReduceT: Clone + Default, LF, RF>(
    left_op: MapTransform<ReduceT, LF>,
    right_op: MapTransmute<ReduceT, RF>,
) -> spec_fn(ReduceT) -> bool {
    |y: ReduceT| transform_other_reduced(left_op, y) || transmute_other_reduced(right_op, y)
}

/// `r` is a reduction by `reduce_op` of secondary values that
/// `transform_with_transmuted` gave on the keys of `lm` and `rm`, with default
/// values, as `pair_reduced_at` says.
pub open spec fn transform_transmute_reduced<K, V, W, ReduceT: Clone + Default, RO, B, LF, RF>(
    reduce_op: RO,
    both_op: MapTransform<ReduceT, B>,
    left_op: MapTransform<ReduceT, LF>,
    right_op: MapTransmute<ReduceT, RF>,
    lm: Map<K, V>,
    rm: Map<K, W>,
    r: ReduceT,
) -> bool where
    RO: Fn(&ReduceT, &ReduceT) -> ReduceT,
    B: Fn(&K, &V, &K, &W) -> MapTransformResult<V, ReduceT>,
    LF: Fn(&K, &V) -> MapTransformResult<V, ReduceT>,
    RF: Fn(&K, &W) -> MapTransmuteResult<K, V, ReduceT>,
 {
    pair_reduced_at(
        reduce_op,
        transform_transmute_pred(both_op, left_op, right_op),
        transform_transmute_others(left_op, right_op),
        |k: K| lm.get(k),
        |k: K| rm.get(k),
        r,
    )
}

/// Which values `transmute_with_transformed` may give for a key with the value
/// `lv` on the left and `rv` on the right.
pub open spec fn transmute_transform_pred<K, V, W, ReduceT: Clone, B, LF, RF>(
    both_op: MapTransform<ReduceT, B>,
    left_op: MapTransmute<ReduceT, LF>,
    right_op: MapTransform<ReduceT, RF>,
) -> spec_fn(K, Option<V>, Option<W>, ReduceT) -> bool where
    B: Fn(&K, &V, &K, &W) -> MapTransformResult<W, ReduceT>,
    LF: Fn(&K, &V) -> MapTransmuteResult<K, W, ReduceT>,
    RF: Fn(&K, &W) -> MapTransformResult<W, ReduceT>,
 {
    |k: K, lv: Option<V>, rv: Option<W>, y: ReduceT|
        match lv {
            Some(v) => match rv {
                Some(w) => transmute_transform_entry_reduced(both_op, k, v, w, y),
                None => transmute_entry_reduced(left_op, k, v, y),
            },
            None => match rv {
                Some(w) => transform_entry_reduced(right_op, k, w, y),
                None => false,
            },
        }
}

/// Which values may stand for no entry in a reduction of `transmute_with_transformed`.
pub open spec fn transmute_transform_others<ReduceT: Clone + Default, LF, RF>(
    left_op: MapTransmute<ReduceT, LF>,
    right_op: MapTransform<ReduceT, RF>,
) -> spec_fn(ReduceT) -> bool {
    |y: ReduceT| transmute_other_reduced(left_op, y) || transform_other_reduced(right_op, y)
}

/// `r` is a reduction by `reduce_op` of secondary values that
/// `transmute_with_transformed` gave on the keys of `lm` and `rm`, with default
/// values, as `pair_reduced_at` says.
pub open spec fn transmute_transform_reduced<K, V, W, ReduceT: Clone + Default, RO, B, LF, RF>(
    reduce_op: RO,
    both_op: MapTransform<ReduceT, B>,
    left_op: MapTransmute<ReduceT, LF>,
    right_op: MapTransform<ReduceT, RF>,
    lm: Map<K, V>,
    rm: Map<K, W>,
    r: ReduceT,
) -> bool where
    RO: Fn(&ReduceT, &ReduceT) -> ReduceT,
    B: Fn(&K, &V, &K, &W) -> MapTransformResult<W, ReduceT>,
    LF: Fn(&K, &V) -> MapTransmuteResult<K, W, ReduceT>,
    RF: Fn(&K, &W) -> MapTransformResult<W, ReduceT>,
 {
    pair_reduced_at(
        reduce_op,
        transmute_transform_pred(both_op, left_op, right_op),
        transmute_transform_others(left_op, right_op),
        |k: K| lm.get(k),
        |k: K| rm.get(k),
        r,
    )
}

/// The reduction may be run on any two values.
pub open spec fn reduces_all<ReduceT, ReduceOp: Fn(&ReduceT, &ReduceT) -> ReduceT>(reduce_op: ReduceOp) -> bool {
    forall|a: &ReduceT, b: &ReduceT| #[trigger] reduce_op.requires((a, b))
}

/// Construct a generic transformation.
pub fn new_map_transform_generic<K, V, ReduceT: Clone, F: Fn(&K, &V) -> MapTransformResult<V, ReduceT> + Clone>(f: F) -> (t: MapTransform<ReduceT, F>)
    ensures
        t == MapTransform::<ReduceT, F>::Generic(f),
{
    MapTransform::Generic(f)
}

/// Construct an identity transformation.
pub fn new_map_transform_unchanged<ReduceT: Clone, F>(r: ReduceT) -> (t: MapTransform<ReduceT, F>)
    ensures
        t == MapTransform::<ReduceT, F>::Unchanged(r),
{
    MapTransform::Unchanged(r)
}

/// Construct a null transformation.
pub fn new_map_transform_removed<ReduceT: Clone, F>(r: ReduceT) -> (t: MapTransform<ReduceT, F>)
    ensures
        t == MapTransform::<ReduceT, F>::Removed(r),
{
    MapTransform::Removed(r)
}

/// Construct a generic joint transformation/transmutation.
pub fn new_map_transform_transmute_generic<K, V, L, W, ReduceT: Clone, F: Fn(&K, &V, &L, &W) -> MapTransformResult<V, ReduceT> + Clone>(f: F) -> (t: MapTransform<ReduceT, F>)
    ensures
        t == MapTransform::<ReduceT, F>::Generic(f),
{
    MapTransform::Generic(f)
}

/// Construct a left-identity joint transformation/transmutation.
pub fn new_map_transform_transmute_unchanged<ReduceT: Clone, F>(r: ReduceT) -> (t: MapTransform<ReduceT, F>)
    ensures
        t == MapTransform::<ReduceT, F>::Unchanged(r),
{
    MapTransform::Unchanged(r)
}

/// Construct a null joint transformation/transmutation.
pub fn new_map_transform_transmute_removed<ReduceT: Clone, F>(r: ReduceT) -> (t: MapTransform<ReduceT, F>)
    ensures
        t == MapTransform::<ReduceT, F>::Removed(r),
{
    MapTransform::Removed(r)
}

/// Construct a generic joint transmutation/transformation.
pub fn new_map_transmute_transform_generic<K, V, L, W, ReduceT: Clone, F: Fn(&K, &V, &L, &W) -> MapTransformResult<W, ReduceT> + Clone>(f: F) -> (t: MapTransform<ReduceT, F>)
    ensures
        t == MapTransform::<ReduceT, F>::Generic(f),
{
    MapTransform::Generic(f)
}

/// Construct a right-identity joint transmutation/transformation.
pub fn new_map_transmute_transform_unchanged<ReduceT: Clone, F>(r: ReduceT) -> (t: MapTransform<ReduceT, F>)
    ensures
        t == MapTransform::<ReduceT, F>::Unchanged(r),
{
    MapTransform::Unchanged(r)
}

/// Construct a null joint transmutation/transformation.
pub fn new_map_transmute_transform_removed<ReduceT: Clone, F>(r: ReduceT) -> (t: MapTransform<ReduceT, F>)
    ensures
        t == MapTransform::<ReduceT, F>::Removed(r),
{
    MapTransform::Removed(r)
}

/// `SetJointTransform` represents a transformation that can be run on a pair of sets.
pub enum SetJointTransform<ReduceT, F> {
    /// `SetJointTransform::Generic` can store an arbitrary joint transformation. The other values should be preferred when applicable, since they can open up optimization potential.
    Generic(F, bool),
    /// `SetJointTransform::UnchangedLR` indicates the value of either side of the joint transformation should be reused in the new set.
    UnchangedLR(ReduceT),
    /// `SetJointTransform::UnchangedL` indicates the value of the left side should be reused in the new set.
    UnchangedL(ReduceT),
    /// `SetJointTransform::UnchangedR` indicates the value of the right side should be reused in the new set.
    UnchangedR(ReduceT),
    /// `SetJointTransform::Removed` indicates the value should be removed from the set.
    Removed(ReduceT),
}

impl<ReduceT: Clone, F: Clone> SetJointTransform<ReduceT, F> {
    /// Call the joint transformation and return a result.
    pub fn call<K>(&self, k: &K, l: &K) -> (r: SetJointTransformResult<ReduceT>) where
        F: Fn(&K, &K) -> SetJointTransformResult<ReduceT>,

        requires
            match *self {
                SetJointTransform::Generic(f, flipped) => if flipped {
                    f.requires((l, k))
                } else {
                    f.requires((k, l))
                },
                _ => true,
            },
        ensures
            match *self {
                SetJointTransform::Generic(f, flipped) => if flipped {
                    f.ensures((l, k), r.spec_flip())
                } else {
                    f.ensures((k, l), r)
                },
                SetJointTransform::UnchangedLR(x) => r matches SetJointTransformResult::UnchangedLR(y) && cloned(x, y),
                SetJointTransform::UnchangedL(x) => r matches SetJointTransformResult::UnchangedL(y) && cloned(x, y),
                SetJointTransform::UnchangedR(x) => r matches SetJointTransformResult::UnchangedR(y) && cloned(x, y),
                SetJointTransform::Removed(x) => r matches SetJointTransformResult::Removed(y) && cloned(x, y),
            },
    {
        match self {
            SetJointTransform::Generic(f, flipped) => {
                if *flipped {
                    let r = f(l, k);
                    r.flip()
                } else {
                    f(k, l)
                }
            },
            SetJointTransform::UnchangedLR(r) => SetJointTransformResult::UnchangedLR(r.clone()),
            SetJointTransform::UnchangedL(r) => SetJointTransformResult::UnchangedL(r.clone()),
            SetJointTransform::UnchangedR(r) => SetJointTransformResult::UnchangedR(r.clone()),
            SetJointTransform::Removed(r) => SetJointTransformResult::Removed(r.clone()),
        }
    }

    /// Flip the joint transformation so it can respond correctly to arguments in the reverse order.
    pub fn flip(&self) -> (r: Self)
        ensures
            match *self {
                SetJointTransform::Generic(f, flipped) => r matches SetJointTransform::Generic(g, b) && b == !flipped && cloned(f, g),
                SetJointTransform::UnchangedLR(x) => r matches SetJointTransform::UnchangedLR(y) && cloned(x, y),
                SetJointTransform::UnchangedL(x) => r matches SetJointTransform::UnchangedR(y) && cloned(x, y),
                SetJointTransform::UnchangedR(x) => r matches SetJointTransform::UnchangedL(y) && cloned(x, y),
                SetJointTransform::Removed(x) => r matches SetJointTransform::Removed(y) && cloned(x, y),
            },
    {
        match self {
            SetJointTransform::Generic(f, flipped) => SetJointTransform::Generic(f.clone(), !*flipped),
            SetJointTransform::UnchangedLR(r) => SetJointTransform::UnchangedLR(r.clone()),
            SetJointTransform::UnchangedL(r) => SetJointTransform::UnchangedR(r.clone()),
            SetJointTransform::UnchangedR(r) => SetJointTransform::UnchangedL(r.clone()),
            SetJointTransform::Removed(r) => SetJointTransform::Removed(r.clone()),
        }
    }
}

impl<ReduceT, F> SetJointTransform<ReduceT, F> {
    /// The joint transformation for the arguments in the reverse order, which
    /// `flip` makes up to clones: the flag of a generic one toggled, and
    /// `UnchangedL` and `UnchangedR` exchanged.
    pub open spec fn spec_flip(self) -> Self {
        match self {
            SetJointTransform::Generic(f, flipped) => SetJointTransform::Generic(f, !flipped),
            SetJointTransform::UnchangedLR(x) => SetJointTransform::UnchangedLR(x),
            SetJointTransform::UnchangedL(x) => SetJointTransform::UnchangedR(x),
            SetJointTransform::UnchangedR(x) => SetJointTransform::UnchangedL(x),
            SetJointTransform::Removed(x) => SetJointTransform::Removed(x),
        }
    }

    /// `r` is a result that the joint transformation may give for the left
    /// value `k` and the right value `l`, as `call` states it.
    pub open spec fn gives<K>(self, k: K, l: K, r: SetJointTransformResult<ReduceT>) -> bool where
        F: Fn(&K, &K) -> SetJointTransformResult<ReduceT>,
     {
        match self {
            SetJointTransform::Generic(f, flipped) => if flipped {
                f.ensures((&l, &k), r.spec_flip())
            } else {
                f.ensures((&k, &l), r)
            },
            SetJointTransform::UnchangedLR(_) => r is UnchangedLR,
            SetJointTransform::UnchangedL(_) => r is UnchangedL,
            SetJointTransform::UnchangedR(_) => r is UnchangedR,
            SetJointTransform::Removed(_) => r is Removed,
        }
    }
}

/// The flipped joint transformation answers the arguments in the reverse order
/// with the flipped results of the joint transformation, accepts them where it
/// accepts the arguments in order, and flipping twice gives it back.
pub proof fn law_map_joint_flip<K, V, ReduceT, F: Fn(&K, &V, &K, &V) -> MapJointTransformResult<V, ReduceT>>(
    t: MapJointTransform<ReduceT, F>,
    k: K,
    v: V,
    l: K,
    w: V,
    r: MapJointTransformResult<V, ReduceT>,
)
    ensures
        t.spec_flip().gives(l, w, k, v, r) == t.gives(k, v, l, w, r.spec_flip()),
        t.spec_flip().accepts(l, w, k, v) == t.accepts(k, v, l, w),
        t.spec_flip().spec_flip() == t,
{
    crate::results::law_flip_involution(r, SetJointTransformResult::<ReduceT>::Removed(arbitrary()));
}

/// The flipped joint transformation of sets answers the arguments in the
/// reverse order with the flipped results of the joint transformation, and
/// flipping twice gives it back.
pub proof fn law_set_joint_flip<K, ReduceT, F: Fn(&K, &K) -> SetJointTransformResult<ReduceT>>(
    t: SetJointTransform<ReduceT, F>,
    k: K,
    l: K,
    r: SetJointTransformResult<ReduceT>,
)
    ensures
        t.spec_flip().gives(l, k, r) == t.gives(k, l, r.spec_flip()),
        t.spec_flip().spec_flip() == t,
{
    crate::results::law_flip_involution(MapJointTransformResult::<K, ReduceT>::Removed(arbitrary()), r);
}

/// Construct a generic joint transformation.
pub fn new_set_joint_transform_generic<K, ReduceT: Clone, F: Fn(&K, &K) -> SetJointTransformResult<ReduceT> + Clone>(f: F) -> (t: SetJointTransform<ReduceT, F>)
    ensures
        t == SetJointTransform::<ReduceT, F>::Generic(f, false),
{
    SetJointTransform::Generic(f, false)
}

/// Construct a left/right indifferent identity joint transformation.
pub fn new_set_joint_transform_unchangedlr<ReduceT: Clone, F>(r: ReduceT) -> (t: SetJointTransform<ReduceT, F>)
    ensures
        t == SetJointTransform::<ReduceT, F>::UnchangedLR(r),
{
    SetJointTransform::UnchangedLR(r)
}

/// Construct a left-identity joint transformation.
pub fn new_set_joint_transform_unchangedl<ReduceT: Clone, F>(r: ReduceT) -> (t: SetJointTransform<ReduceT, F>)
    ensures
        t == SetJointTransform::<ReduceT, F>::UnchangedL(r),
{
    SetJointTransform::UnchangedL(r)
}

/// Construct a right-identity joint transformation.
pub fn new_set_joint_transform_unchangedr<ReduceT: Clone, F>(r: ReduceT) -> (t: SetJointTransform<ReduceT, F>)
    ensures
        t == SetJointTransform::<ReduceT, F>::UnchangedR(r),
{
    SetJointTransform::UnchangedR(r)
}

/// Construct a null joint transformation.
pub fn new_set_joint_transform_removed<ReduceT: Clone, F>(r: ReduceT) -> (t: SetJointTransform<ReduceT, F>)
    ensures
        t == SetJointTransform::<ReduceT, F>::Removed(r),
{
    SetJointTransform::Removed(r)
}

/// `SetTransform` represents a transformation that can be run on a set.
pub enum SetTransform<ReduceT, F> {
    /// `SetTransform::Generic` can store an arbitrary transformation. The other values should be preferred when applicable, since they can open up optimization potential.
    Generic(F),
    /// `SetTransform::Unchanged` indicates the old value should be reused in the new set.
    Unchanged(ReduceT),
    /// `SetTransform::Removed` indicates the value should be removed from the set.
    Removed(ReduceT),
}

impl<ReduceT: Clone, F> SetTransform<ReduceT, F> {
    /// Call the transformation and return a result.
    pub fn call<K>(&self, k: &K) -> (r: SetTransformResult<ReduceT>) where
        F: Fn(&K) -> SetTransformResult<ReduceT>,

        requires
            self matches SetTransform::Generic(f) ==> f.requires((k,)),
        ensures
            match *self {
                SetTransform::Generic(f) => f.ensures((k,), r),
                SetTransform::Unchanged(x) => r matches SetTransformResult::Unchanged(y) && cloned(x, y),
                SetTransform::Removed(x) => r matches SetTransformResult::Removed(y) && cloned(x, y),
            },
    {
        match self {
            SetTransform::Generic(f) => f(k),
            SetTransform::Unchanged(r) => SetTransformResult::Unchanged(r.clone()),
            SetTransform::Removed(r) => SetTransformResult::Removed(r.clone()),
        }
    }

    /// Call the transmutation and return a result.
    pub fn call_transmute<K, L>(&self, k: &K, l: &L) -> (r: SetTransformResult<ReduceT>) where
        F: Fn(&K, &L) -> SetTransformResult<ReduceT>,

        requires
            self matches SetTransform::Generic(f) ==> f.requires((k, l)),
        ensures
            match *self {
                SetTransform::Generic(f) => f.ensures((k, l), r),
                SetTransform::Unchanged(x) => r matches SetTransformResult::Unchanged(y) && cloned(x, y),
                SetTransform::Removed(x) => r matches SetTransformResult::Removed(y) && cloned(x, y),
            },
    {
        match self {
            SetTransform::Generic(f) => f(k, l),
            SetTransform::Unchanged(r) => SetTransformResult::Unchanged(r.clone()),
            SetTransform::Removed(r) => SetTransformResult::Removed(r.clone()),
        }
    }

    /// Flip the joint transformation/transmutation so it can respond correctly to arguments in the reverse order.
    pub fn flip_transmute<'a, K, L>(&'a self) -> (r: SetTransform<
        ReduceT,
        impl Fn(&L, &K) -> SetTransformResult<ReduceT> + Clone + 'a,
    >) where
        F: Fn(&K, &L) -> SetTransformResult<ReduceT>,

        ensures
            self.flips_transmute::<K, L, _>(r),
    {
        match self {
            SetTransform::Generic(f) => SetTransform::Generic(move |l: &L, k: &K| -> (out: SetTransformResult<ReduceT>)
                requires
                    f.requires((k, l)),
                ensures
                    f.ensures((k, l), out),
                {
                    f(k, l)
                }),
            SetTransform::Unchanged(r) => SetTransform::Unchanged(r.clone()),
            SetTransform::Removed(r) => SetTransform::Removed(r.clone()),
        }
    }
}

/// Construct a generic transformation.
pub fn new_set_transform_generic<K, ReduceT: Clone, F: Fn(&K) -> SetTransformResult<ReduceT> + Clone>(f: F) -> (t: SetTransform<ReduceT, F>)
    ensures
        t == SetTransform::<ReduceT, F>::Generic(f),
{
    SetTransform::Generic(f)
}

/// Construct an identity transformation.
pub fn new_set_transform_unchanged<ReduceT: Clone, F>(r: ReduceT) -> (t: SetTransform<ReduceT, F>)
    ensures
        t == SetTransform::<ReduceT, F>::Unchanged(r),
{
    SetTransform::Unchanged(r)
}

/// Construct a null transformation.
pub fn new_set_transform_removed<ReduceT: Clone, F>(r: ReduceT) -> (t: SetTransform<ReduceT, F>)
    ensures
        t == SetTransform::<ReduceT, F>::Removed(r),
{
    SetTransform::Removed(r)
}

/// Construct a generic joint transformation/transmutation.
pub fn new_set_transform_transmute_generic<K, L, ReduceT: Clone, F: Fn(&K, &L) -> SetTransformResult<ReduceT> + Clone>(f: F) -> (t: SetTransform<ReduceT, F>)
    ensures
        t == SetTransform::<ReduceT, F>::Generic(f),
{
    SetTransform::Generic(f)
}

/// Construct a left/right identity joint transformation/transmutation.
pub fn new_set_transform_transmute_unchanged<ReduceT: Clone, F>(r: ReduceT) -> (t: SetTransform<ReduceT, F>)
    ensures
        t == SetTransform::<ReduceT, F>::Unchanged(r),
{
    SetTransform::Unchanged(r)
}

/// Construct a null joint transformation/transmutation.
pub fn new_set_transform_transmute_removed<ReduceT: Clone, F>(r: ReduceT) -> (t: SetTransform<ReduceT, F>)
    ensures
        t == SetTransform::<ReduceT, F>::Removed(r),
{
    SetTransform::Removed(r)
}

/// `MapTransmute` represents a transmutation that can be run on a map.
pub enum MapTransmute<ReduceT, F> {
    /// `MapTransmute::Generic` can store an arbitrary transmutation.
    Generic(F),
    /// `MapTransmute::Removed` indicates the value should be removed from the map.
    Removed(ReduceT),
}

impl<ReduceT, F> MapTransmute<ReduceT, F> {
    /// The transmutation may be run on the entry `(k, v)`.
    pub open spec fn accepts<K, V, S, X>(self, k: K, v: V) -> bool where
        F: Fn(&K, &V) -> MapTransmuteResult<S, X, ReduceT>,
     {
        self matches MapTransmute::Generic(f) ==> f.requires((&k, &v))
    }

    /// `r` is a result that the transmutation may give for the entry `(k, v)`.
    pub open spec fn gives<K, V, S, X>(self, k: K, v: V, r: MapTransmuteResult<S, X, ReduceT>) -> bool where
        F: Fn(&K, &V) -> MapTransmuteResult<S, X, ReduceT>,
     {
        match self {
            MapTransmute::Generic(f) => f.ensures((&k, &v), r),
            MapTransmute::Removed(_) => r is Removed,
        }
    }
}

/// `new` holds what the results `outcomes`, one for each entry of `old`, say:
/// the new entry of each transmuted entry, and nothing else.
pub open spec fn transmuted_by<K, V, S, X, ReduceT>(
    old: Map<K, V>,
    outcomes: Map<K, MapTransmuteResult<S, X, ReduceT>>,
    new: Map<S, X>,
) -> bool {
    &&& outcomes.dom() == old.dom()
    &&& forall|k: K| #[trigger]
        outcomes.dom().contains(k) && outcomes[k].new_entry() is Some ==> new.get(outcomes[k].new_entry()->Some_0.0)
            == Some(outcomes[k].new_entry()->Some_0.1)
    &&& forall|s: S| #[trigger]
        new.dom().contains(s) ==> exists|k: K| #[trigger]
            outcomes.dom().contains(k) && outcomes[k].new_entry() is Some && outcomes[k].new_entry()->Some_0.0 == s
}

/// `new` is `old` with the transmutation run on each entry: each entry gives
/// a result that the transmutation may give for it, and `new` holds what they say.
pub open spec fn transmuted_map<K, V, S, X, ReduceT, F>(op: MapTransmute<ReduceT, F>, old: Map<K, V>, new: Map<S, X>) -> bool where
    F: Fn(&K, &V) -> MapTransmuteResult<S, X, ReduceT>,
 {
    exists|outcomes: Map<K, MapTransmuteResult<S, X, ReduceT>>|
        #![trigger transmuted_by(old, outcomes, new)]
        transmuted_by(old, outcomes, new) && forall|k: K| #[trigger]
            old.dom().contains(k) ==> op.gives(k, old[k], outcomes[k])
}

/// The transmutation may be run on every entry of `m`.
pub open spec fn transmute_accepts_all<K, V, S, X, ReduceT, F>(op: MapTransmute<ReduceT, F>, m: Map<K, V>) -> bool where
    F: Fn(&K, &V) -> MapTransmuteResult<S, X, ReduceT>,
 {
    forall|k: K| #[trigger] m.dom().contains(k) ==> op.accepts(k, m[k])
}

/// Every result that the transmutation may give for an entry of `m` keeps the
/// hash of the key, and the results for distinct keys make distinct keys: the
/// new entries can stay where the old ones were.
pub open spec fn transmute_keeps_places<K, V, S, X, ReduceT, F, M>(op: MapTransmute<ReduceT, F>, m: Map<K, V>) -> bool where
    F: Fn(&K, &V) -> MapTransmuteResult<S, X, ReduceT>,
    M: crate::hashing::HasherBv<u64, K> + crate::hashing::HasherBv<u64, S>,
 {
    &&& forall|k: K, r: MapTransmuteResult<S, X, ReduceT>|
        #![trigger op.gives(k, m[k], r)]
        m.dom().contains(k) && op.gives(k, m[k], r) && r.new_entry() is Some ==> <M as crate::hashing::HasherBv<
            u64,
            S,
        >>::hash_of(r.new_entry()->Some_0.0) == <M as crate::hashing::HasherBv<u64, K>>::hash_of(k)
    &&& forall|k1: K, k2: K, r1: MapTransmuteResult<S, X, ReduceT>, r2: MapTransmuteResult<S, X, ReduceT>|
        #![trigger op.gives(k1, m[k1], r1), op.gives(k2, m[k2], r2)]
        m.dom().contains(k1) && m.dom().contains(k2) && k1 != k2 && op.gives(k1, m[k1], r1) && op.gives(k2, m[k2], r2)
            && r1.new_entry() is Some && r2.new_entry() is Some ==> r1.new_entry()->Some_0.0 != r2.new_entry()->Some_0.0
}

impl<ReduceT: Clone, F> MapTransmute<ReduceT, F> {
    /// Call the transmutation and return a result.
    pub fn call<K, V, S, X>(&self, k: &K, v: &V) -> (r: MapTransmuteResult<S, X, ReduceT>) where
        F: Fn(&K, &V) -> MapTransmuteResult<S, X, ReduceT>,

        requires
            self matches MapTransmute::Generic(f) ==> f.requires((k, v)),
        ensures
            match *self {
                MapTransmute::Generic(f) => f.ensures((k, v), r),
                MapTransmute::Removed(x) => r matches MapTransmuteResult::Removed(y) && cloned(x, y),
            },
    {
        match self {
            MapTransmute::Generic(f) => f(k, v),
            MapTransmute::Removed(r) => MapTransmuteResult::Removed(r.clone()),
        }
    }

    /// Call the joint transmutation and return a result.
    pub fn call_transmute<K, V, L, W, S, X>(&self, k: &K, v: &V, l: &L, w: &W) -> (r: MapTransmuteResult<S, X, ReduceT>) where
        F: Fn(&K, &V, &L, &W) -> MapTransmuteResult<S, X, ReduceT>,

        requires
            self matches MapTransmute::Generic(f) ==> f.requires((k, v, l, w)),
        ensures
            match *self {
                MapTransmute::Generic(f) => f.ensures((k, v, l, w), r),
                MapTransmute::Removed(x) => r matches MapTransmuteResult::Removed(y) && cloned(x, y),
            },
    {
        match self {
            MapTransmute::Generic(f) => f(k, v, l, w),
            MapTransmute::Removed(r) => MapTransmuteResult::Removed(r.clone()),
        }
    }

    /// Flip the joint transmutation so it can respond correctly to arguments in the reverse order.
    pub fn flip<'a, K, V, L, W, S, X>(&'a self) -> (r: MapTransmute<ReduceT, impl Fn(&L, &W, &K, &V) -> MapTransmuteResult<S, X, ReduceT> + Clone + 'a>) where
        F: Fn(&K, &V, &L, &W) -> MapTransmuteResult<S, X, ReduceT>,

        ensures
            self.flips_pair::<K, V, L, W, S, X, _>(r),
    {
        match self {
            MapTransmute::Generic(f) => MapTransmute::Generic(move |l: &L, w: &W, k: &K, v: &V| -> (out: MapTransmuteResult<S, X, ReduceT>)
                requires
                    f.requires((k, v, l, w)),
                ensures
                    f.ensures((k, v, l, w), out),
                {
                    f(k, v, l, w)
                }),
            MapTransmute::Removed(r) => MapTransmute::Removed(r.clone()),
        }
    }
}

/// Construct a generic transmutation.
pub fn new_map_transmute_generic<K, V, S, X, ReduceT: Clone, F: Fn(&K, &V) -> MapTransmuteResult<S, X, ReduceT> + Clone>(f: F) -> (t: MapTransmute<ReduceT, F>)
    ensures
        t == MapTransmute::<ReduceT, F>::Generic(f),
{
    MapTransmute::Generic(f)
}

/// Construct a null transmutation.
pub fn new_map_transmute_removed<ReduceT: Clone, F>(r: ReduceT) -> (t: MapTransmute<ReduceT, F>)
    ensures
        t == MapTransmute::<ReduceT, F>::Removed(r),
{
    MapTransmute::Removed(r)
}

/// Construct a generic joint transmutation.
pub fn new_map_transmute_transmute_generic<K, V, L, W, S, X, ReduceT: Clone, F: Fn(&K, &V, &L, &W) -> MapTransmuteResult<S, X, ReduceT> + Clone>(f: F) -> (t: MapTransmute<ReduceT, F>)
    ensures
        t == MapTransmute::<ReduceT, F>::Generic(f),
{
    MapTransmute::Generic(f)
}

/// Construct a null joint transmutation.
pub fn new_map_transmute_transmute_removed<ReduceT: Clone, F>(r: ReduceT) -> (t: MapTransmute<ReduceT, F>)
    ensures
        t == MapTransmute::<ReduceT, F>::Removed(r),
{
    MapTransmute::Removed(r)
}

/// `SetTransmute` represents a transmutation that can be run on a set.
pub enum SetTransmute<ReduceT, F> {
    /// `SetTransmute::Generic` can store an arbitrary transmutation.
    Generic(F),
    /// `SetTransmute::Removed` indicates the value should be removed from the set.
    Removed(ReduceT),
}

impl<ReduceT: Clone, F> SetTransmute<ReduceT, F> {
    /// Call the transmutation and return a result.
    pub fn call<K, S>(&self, k: &K) -> (r: SetTransmuteResult<S, ReduceT>) where
        F: Fn(&K) -> SetTransmuteResult<S, ReduceT>,

        requires
            self matches SetTransmute::Generic(f) ==> f.requires((k,)),
        ensures
            match *self {
                SetTransmute::Generic(f) => f.ensures((k,), r),
                SetTransmute::Removed(x) => r matches SetTransmuteResult::Removed(y) && cloned(x, y),
            },
    {
        match self {
            SetTransmute::Generic(f) => f(k),
            SetTransmute::Removed(r) => SetTransmuteResult::Removed(r.clone()),
        }
    }

    /// Call the joint transmutation and return a result.
    pub fn call_transmute<K, L, S>(&self, k: &K, l: &L) -> (r: SetTransmuteResult<S, ReduceT>) where
        F: Fn(&K, &L) -> SetTransmuteResult<S, ReduceT>,

        requires
            self matches SetTransmute::Generic(f) ==> f.requires((k, l)),
        ensures
            match *self {
                SetTransmute::Generic(f) => f.ensures((k, l), r),
                SetTransmute::Removed(x) => r matches SetTransmuteResult::Removed(y) && cloned(x, y),
            },
    {
        match self {
            SetTransmute::Generic(f) => f(k, l),
            SetTransmute::Removed(r) => SetTransmuteResult::Removed(r.clone()),
        }
    }

    /// Flip the joint transmutation so it can respond correctly to arguments in the reverse order.
    pub fn flip<'a, K, L, S>(&'a self) -> (r: SetTransmute<ReduceT, impl Fn(&L, &K) -> SetTransmuteResult<S, ReduceT> + Clone + 'a>) where
        F: Fn(&K, &L) -> SetTransmuteResult<S, ReduceT>,

        ensures
            self.flips_entry::<K, L, S, _>(r),
    {
        match self {
            SetTransmute::Generic(f) => SetTransmute::Generic(move |l: &L, k: &K| -> (out: SetTransmuteResult<S, ReduceT>)
                requires
                    f.requires((k, l)),
                ensures
                    f.ensures((k, l), out),
                {
                    f(k, l)
                }),
            SetTransmute::Removed(r) => SetTransmute::Removed(r.clone()),
        }
    }
}

/// Construct a generic transmutation.
pub fn new_set_transmute_generic<K, S, ReduceT: Clone, F: Fn(&K) -> SetTransmuteResult<S, ReduceT> + Clone>(f: F) -> (t: SetTransmute<ReduceT, F>)
    ensures
        t == SetTransmute::<ReduceT, F>::Generic(f),
{
    SetTransmute::Generic(f)
}

/// Construct a null transmutation.
pub fn new_set_transmute_removed<ReduceT: Clone, F>(r: ReduceT) -> (t: SetTransmute<ReduceT, F>)
    ensures
        t == SetTransmute::<ReduceT, F>::Removed(r),
{
    SetTransmute::Removed(r)
}

/// Construct a generic joint transmutation.
pub fn new_set_transmute_transmute_generic<K, L, S, ReduceT: Clone, F: Fn(&K, &L) -> SetTransmuteResult<S, ReduceT> + Clone>(f: F) -> (t: SetTransmute<ReduceT, F>)
    ensures
        t == SetTransmute::<ReduceT, F>::Generic(f),
{
    SetTransmute::Generic(f)
}

/// Construct a null joint transmutation.
pub fn new_set_transmute_transmute_removed<ReduceT: Clone, F>(r: ReduceT) -> (t: SetTransmute<ReduceT, F>)
    ensures
        t == SetTransmute::<ReduceT, F>::Removed(r),
{
    SetTransmute::Removed(r)
}

impl<ReduceT: Clone, F> MapTransform<ReduceT, F> {
    /// `r` is this joint transformation/transmutation with its arguments in
    /// the reverse order: a generic one runs the same operation, a constant
    /// one keeps its kind and a copy of its value.
    pub open spec fn flips_transform_transmute<K, V, L, W, G>(self, r: MapTransform<ReduceT, G>) -> bool where
        F: Fn(&K, &V, &L, &W) -> MapTransformResult<V, ReduceT>,
        G: Fn(&L, &W, &K, &V) -> MapTransformResult<V, ReduceT>,
     {
        match self {
            MapTransform::Generic(f) => r matches MapTransform::Generic(g) && (forall|l: &L, w: &W, k: &K, v: &V|
                #[trigger] f.requires((k, v, l, w)) ==> g.requires((l, w, k, v))) && (forall|l: &L, w: &W, k: &K, v: &V, out: MapTransformResult<V, ReduceT>|
                #[trigger] g.ensures((l, w, k, v), out) ==> f.ensures((k, v, l, w), out)),
            MapTransform::Unchanged(x) => r matches MapTransform::Unchanged(y) && cloned(x, y),
            MapTransform::Removed(x) => r matches MapTransform::Removed(y) && cloned(x, y),
        }
    }

    /// `r` is this joint transmutation/transformation with its arguments in
    /// the reverse order: a generic one runs the same operation, a constant
    /// one keeps its kind and a copy of its value.
    pub open spec fn flips_transmute_transform<K, V, L, W, G>(self, r: MapTransform<ReduceT, G>) -> bool where
        F: Fn(&K, &V, &L, &W) -> MapTransformResult<W, ReduceT>,
        G: Fn(&L, &W, &K, &V) -> MapTransformResult<W, ReduceT>,
     {
        match self {
            MapTransform::Generic(f) => r matches MapTransform::Generic(g) && (forall|l: &L, w: &W, k: &K, v: &V|
                #[trigger] f.requires((k, v, l, w)) ==> g.requires((l, w, k, v))) && (forall|l: &L, w: &W, k: &K, v: &V, out: MapTransformResult<W, ReduceT>|
                #[trigger] g.ensures((l, w, k, v), out) ==> f.ensures((k, v, l, w), out)),
            MapTransform::Unchanged(x) => r matches MapTransform::Unchanged(y) && cloned(x, y),
            MapTransform::Removed(x) => r matches MapTransform::Removed(y) && cloned(x, y),
        }
    }
}

impl<ReduceT: Clone, F> SetTransform<ReduceT, F> {
    /// `r` is this joint transformation/transmutation with its arguments in
    /// the reverse order: a generic one runs the same operation, a constant
    /// one keeps its kind and a copy of its value.
    pub open spec fn flips_transmute<K, L, G>(self, r: SetTransform<ReduceT, G>) -> bool where
        F: Fn(&K, &L) -> SetTransformResult<ReduceT>,
        G: Fn(&L, &K) -> SetTransformResult<ReduceT>,
     {
        match self {
            SetTransform::Generic(f) => r matches SetTransform::Generic(g) && (forall|l: &L, k: &K|
                #[trigger] f.requires((k, l)) ==> g.requires((l, k))) && (forall|l: &L, k: &K, out: SetTransformResult<ReduceT>|
                #[trigger] g.ensures((l, k), out) ==> f.ensures((k, l), out)),
            SetTransform::Unchanged(x) => r matches SetTransform::Unchanged(y) && cloned(x, y),
            SetTransform::Removed(x) => r matches SetTransform::Removed(y) && cloned(x, y),
        }
    }
}

impl<ReduceT, F> SetTransform<ReduceT, F> {
    /// The joint transformation/transmutation may be run on the keys `k` and `l`.
    pub open spec fn accepts_transmute<K, L>(self, k: K, l: L) -> bool where
        F: Fn(&K, &L) -> SetTransformResult<ReduceT>,
     {
        self matches SetTransform::Generic(f) ==> f.requires((&k, &l))
    }

    /// `r` is a result that the joint transformation/transmutation may give
    /// for the keys `k` and `l`.
    pub open spec fn gives_transmute<K, L>(self, k: K, l: L, r: SetTransformResult<ReduceT>) -> bool where
        F: Fn(&K, &L) -> SetTransformResult<ReduceT>,
     {
        match self {
            SetTransform::Generic(f) => f.ensures((&k, &l), r),
            SetTransform::Unchanged(_) => r is Unchanged,
            SetTransform::Removed(_) => r is Removed,
        }
    }
}

impl<ReduceT: Clone, F> MapTransmute<ReduceT, F> {
    /// `r` is this joint transmutation with its arguments in the reverse
    /// order: a generic one runs the same operation, a constant one keeps a
    /// copy of its value.
    pub open spec fn flips_pair<K, V, L, W, S, X, G>(self, r: MapTransmute<ReduceT, G>) -> bool where
        F: Fn(&K, &V, &L, &W) -> MapTransmuteResult<S, X, ReduceT>,
        G: Fn(&L, &W, &K, &V) -> MapTransmuteResult<S, X, ReduceT>,
     {
        match self {
            MapTransmute::Generic(f) => r matches MapTransmute::Generic(g) && (forall|l: &L, w: &W, k: &K, v: &V|
                #[trigger] f.requires((k, v, l, w)) ==> g.requires((l, w, k, v))) && (forall|l: &L, w: &W, k: &K, v: &V, out: MapTransmuteResult<S, X, ReduceT>|
                #[trigger] g.ensures((l, w, k, v), out) ==> f.ensures((k, v, l, w), out)),
            MapTransmute::Removed(x) => r matches MapTransmute::Removed(y) && cloned(x, y),
        }
    }
}

impl<ReduceT: Clone, F> SetTransmute<ReduceT, F> {
    /// `r` is this joint transmutation with its arguments in the reverse
    /// order: a generic one runs the same operation, a constant one keeps a
    /// copy of its value.
    pub open spec fn flips_entry<K, L, S, G>(self, r: SetTransmute<ReduceT, G>) -> bool where
        F: Fn(&K, &L) -> SetTransmuteResult<S, ReduceT>,
        G: Fn(&L, &K) -> SetTransmuteResult<S, ReduceT>,
     {
        match self {
            SetTransmute::Generic(f) => r matches SetTransmute::Generic(g) && (forall|l: &L, k: &K|
                #[trigger] f.requires((k, l)) ==> g.requires((l, k))) && (forall|l: &L, k: &K, out: SetTransmuteResult<S, ReduceT>|
                #[trigger] g.ensures((l, k), out) ==> f.ensures((k, l), out)),
            SetTransmute::Removed(x) => r matches SetTransmute::Removed(y) && cloned(x, y),
        }
    }
}

/// A flipped joint transformation/transmutation takes its arguments in the
/// reverse order: it may be run on them wherever the original may be run, and
/// gives there only what the original gives.
pub proof fn law_flip_transform_transmute<K, V, L, W, R: Clone, F, G>(
    t: MapTransform<R, F>,
    u: MapTransform<R, G>,
    k: K,
    v: V,
    l: L,
    w: W,
    out: MapTransformResult<V, R>,
) where
    F: Fn(&K, &V, &L, &W) -> MapTransformResult<V, R>,
    G: Fn(&L, &W, &K, &V) -> MapTransformResult<V, R>,

    requires
        t.flips_transform_transmute::<K, V, L, W, G>(u),
    ensures
        t.accepts_transform_transmute(k, v, l, w) ==> u.accepts_transmute_transform(l, w, k, v),
        u.gives_transmute_transform(l, w, k, v, out) ==> t.gives_transform_transmute(k, v, l, w, out),
{
}

/// A flipped joint transmutation/transformation takes its arguments in the
/// reverse order: it may be run on them wherever the original may be run, and
/// gives there only what the original gives.
pub proof fn law_flip_transmute_transform<K, V, L, W, R: Clone, F, G>(
    t: MapTransform<R, F>,
    u: MapTransform<R, G>,
    k: K,
    v: V,
    l: L,
    w: W,
    out: MapTransformResult<W, R>,
) where
    F: Fn(&K, &V, &L, &W) -> MapTransformResult<W, R>,
    G: Fn(&L, &W, &K, &V) -> MapTransformResult<W, R>,

    requires
        t.flips_transmute_transform::<K, V, L, W, G>(u),
    ensures
        t.accepts_transmute_transform(k, v, l, w) ==> u.accepts_transform_transmute(l, w, k, v),
        u.gives_transform_transmute(l, w, k, v, out) ==> t.gives_transmute_transform(k, v, l, w, out),
{
}

/// A flipped joint set transformation/transmutation takes its arguments in
/// the reverse order: it may be run on them wherever the original may be run,
/// and gives there only what the original gives.
pub proof fn law_flip_set_transmute<K, L, R: Clone, F, G>(
    t: SetTransform<R, F>,
    u: SetTransform<R, G>,
    k: K,
    l: L,
    out: SetTransformResult<R>,
) where
    F: Fn(&K, &L) -> SetTransformResult<R>,
    G: Fn(&L, &K) -> SetTransformResult<R>,

    requires
        t.flips_transmute::<K, L, G>(u),
    ensures
        t.accepts_transmute(k, l) ==> u.accepts_transmute(l, k),
        u.gives_transmute(l, k, out) ==> t.gives_transmute(k, l, out),
{
}

/// A flipped joint transmutation takes its arguments in the reverse order: it
/// may be run on them wherever the original may be run, and gives there only
/// what the original gives.
pub proof fn law_flip_map_transmute<K, V, L, W, S, X, R: Clone, F, G>(
    t: MapTransmute<R, F>,
    u: MapTransmute<R, G>,
    k: K,
    v: V,
    l: L,
    w: W,
    out: MapTransmuteResult<S, X, R>,
) where
    F: Fn(&K, &V, &L, &W) -> MapTransmuteResult<S, X, R>,
    G: Fn(&L, &W, &K, &V) -> MapTransmuteResult<S, X, R>,

    requires
        t.flips_pair::<K, V, L, W, S, X, G>(u),
    ensures
        t.accepts_pair::<K, V, L, W, S, X>(k, v, l, w) ==> u.accepts_pair::<L, W, K, V, S, X>(l, w, k, v),
        u.gives_pair(l, w, k, v, out) ==> t.gives_pair(k, v, l, w, out),
{
}

/// A flipped joint set transmutation takes its arguments in the reverse
/// order: it may be run on them wherever the original may be run, and gives
/// there only what the original gives.
pub proof fn law_flip_set_transmute_entry<K, L, S, R: Clone, F, G>(
    t: SetTransmute<R, F>,
    u: SetTransmute<R, G>,
    k: K,
    l: L,
    out: SetTransmuteResult<S, R>,
) where
    F: Fn(&K, &L) -> SetTransmuteResult<S, R>,
    G: Fn(&L, &K) -> SetTransmuteResult<S, R>,

    requires
        t.flips_entry::<K, L, S, G>(u),
    ensures
        t.accepts_entry::<K, L, S>(k, l) ==> u.accepts_entry::<L, K, S>(l, k),
        u.gives_entry(l, k, out) ==> t.gives_entry(k, l, out),
{
}

impl<ReduceT, F> MapTransform<ReduceT, F> {
    /// The joint transformation/transmutation may be run on the entries `(k, v)` and `(l, w)`.
    pub open spec fn accepts_transform_transmute<K, V, L, W>(self, k: K, v: V, l: L, w: W) -> bool where
        F: Fn(&K, &V, &L, &W) -> MapTransformResult<V, ReduceT>,
     {
        self matches MapTransform::Generic(f) ==> f.requires((&k, &v, &l, &w))
    }

    /// `r` is a result that the joint transformation/transmutation may give for
    /// the entries `(k, v)` and `(l, w)`; it speaks of the value `v`.
    pub open spec fn gives_transform_transmute<K, V, L, W>(self, k: K, v: V, l: L, w: W, r: MapTransformResult<V, ReduceT>) -> bool where
        F: Fn(&K, &V, &L, &W) -> MapTransformResult<V, ReduceT>,
     {
        match self {
            MapTransform::Generic(f) => f.ensures((&k, &v, &l, &w), r),
            MapTransform::Unchanged(_) => r is Unchanged,
            MapTransform::Removed(_) => r is Removed,
        }
    }

    /// The joint transmutation/transformation may be run on the entries `(k, v)` and `(l, w)`.
    pub open spec fn accepts_transmute_transform<K, V, L, W>(self, k: K, v: V, l: L, w: W) -> bool where
        F: Fn(&K, &V, &L, &W) -> MapTransformResult<W, ReduceT>,
     {
        self matches MapTransform::Generic(f) ==> f.requires((&k, &v, &l, &w))
    }

    /// `r` is a result that the joint transmutation/transformation may give for
    /// the entries `(k, v)` and `(l, w)`; it speaks of the value `w`.
    pub open spec fn gives_transmute_transform<K, V, L, W>(self, k: K, v: V, l: L, w: W, r: MapTransformResult<W, ReduceT>) -> bool where
        F: Fn(&K, &V, &L, &W) -> MapTransformResult<W, ReduceT>,
     {
        match self {
            MapTransform::Generic(f) => f.ensures((&k, &v, &l, &w), r),
            MapTransform::Unchanged(_) => r is Unchanged,
            MapTransform::Removed(_) => r is Removed,
        }
    }
}

impl<ReduceT, F> SetTransmute<ReduceT, F> {
    /// The transmutation may be run on the entry `(k, w)`.
    pub open spec fn accepts_entry<K, W, X>(self, k: K, w: W) -> bool where
        F: Fn(&K, &W) -> SetTransmuteResult<X, ReduceT>,
     {
        self matches SetTransmute::Generic(f) ==> f.requires((&k, &w))
    }

    /// `r` is a result that the transmutation may give for the entry `(k, w)`.
    pub open spec fn gives_entry<K, W, X>(self, k: K, w: W, r: SetTransmuteResult<X, ReduceT>) -> bool where
        F: Fn(&K, &W) -> SetTransmuteResult<X, ReduceT>,
     {
        match self {
            SetTransmute::Generic(f) => f.ensures((&k, &w), r),
            SetTransmute::Removed(_) => r is Removed,
        }
    }
}

/// The entry for `k` is `after` once the transmutation has run on the entry
/// `before` and kept its key: an absent entry stays absent, and a present one
/// holds the value of a result that the transmutation may give for it.
pub open spec fn set_transmuted_entry<K, W, X, ReduceT, F>(
    op: SetTransmute<ReduceT, F>,
    k: K,
    before: Option<W>,
    after: Option<X>,
) -> bool where F: Fn(&K, &W) -> SetTransmuteResult<X, ReduceT> {
    match before {
        None => after is None,
        Some(w) => exists|r: SetTransmuteResult<X, ReduceT>| #[trigger] op.gives_entry(k, w, r) && r.value() == after,
    }
}

/// The entry that a transmutation result for the key `k` makes when the key is kept.
pub open spec fn keyed_entry<K, X, ReduceT>(k: K, r: SetTransmuteResult<X, ReduceT>) -> Option<(K, X)> {
    match r {
        SetTransmuteResult::Transmuted(x, _) => Some((k, x)),
        SetTransmuteResult::Removed(_) => None,
    }
}

/// `t` runs the transmutation `op` and keeps the key of each entry: it may run
/// where `op` may, and each result it gives makes the entry of a result of `op`.
pub open spec fn keyed_by<K, W, X, ReduceT: Clone, F, G>(t: MapTransmute<ReduceT, G>, op: SetTransmute<ReduceT, F>) -> bool where
    F: Fn(&K, &W) -> SetTransmuteResult<X, ReduceT>,
    G: Fn(&K, &W) -> MapTransmuteResult<K, X, ReduceT>,
 {
    &&& forall|k: K, w: W| #[trigger] op.accepts_entry(k, w) ==> t.accepts::<K, W, K, X>(k, w)
    &&& forall|k: K, w: W, r: MapTransmuteResult<K, X, ReduceT>|
        #[trigger] t.gives(k, w, r) ==> exists|x: SetTransmuteResult<X, ReduceT>| #[trigger]
            op.gives_entry(k, w, x) && r.new_entry() == keyed_entry(k, x) && (op is Generic ==> r.reduced()
                == x.reduced())
    &&& op is Generic <==> t is Generic
    &&& op matches SetTransmute::Removed(x) ==> t matches MapTransmute::Removed(y) && cloned(x, y)
}

/// The transmutation `op` of values as a transmutation of entries that keeps each key.
pub(crate) fn keyed_transmute<'a, K: crate::hashing::Key, W, X, ReduceT: Clone, F: Fn(&K, &W) -> SetTransmuteResult<X, ReduceT>>(
    op: &'a SetTransmute<ReduceT, F>,
) -> (t: MapTransmute<ReduceT, impl Fn(&K, &W) -> MapTransmuteResult<K, X, ReduceT> + 'a>)
    ensures
        keyed_by(t, *op),
{
    match op {
        SetTransmute::Generic(f) => {
            let g = move |k: &K, w: &W| -> (out: MapTransmuteResult<K, X, ReduceT>)
                requires
                    f.requires((k, w)),
                ensures
                    exists|x: SetTransmuteResult<X, ReduceT>| #[trigger] f.ensures((k, w), x) && out.new_entry() == keyed_entry(*k, x)
                        && out.reduced() == x.reduced(),
                {
                    let x = f(k, w);
                    match x {
                        SetTransmuteResult::Transmuted(v, r) => MapTransmuteResult::Transmuted(k.key_clone(), v, r),
                        SetTransmuteResult::Removed(r) => MapTransmuteResult::Removed(r),
                    }
                };
            let t = MapTransmute::Generic(g);
            proof {
                assert forall|k: K, w: W| #[trigger] op.accepts_entry(k, w) implies t.accepts::<K, W, K, X>(k, w) by {
                    assert(f.requires((&k, &w)));
                }
                assert forall|k: K, w: W, o: MapTransmuteResult<K, X, ReduceT>| #[trigger] t.gives(k, w, o) implies exists|
                    x: SetTransmuteResult<X, ReduceT>,
                | #[trigger] op.gives_entry(k, w, x) && o.new_entry() == keyed_entry(k, x) && (op is Generic ==> o.reduced()
                    == x.reduced()) by {
                    assert(g.ensures((&k, &w), o));
                    let x = choose|x: SetTransmuteResult<X, ReduceT>| #[trigger] f.ensures((&k, &w), x) && o.new_entry() == keyed_entry(k, x)
                        && o.reduced() == x.reduced();
                    assert(op.gives_entry(k, w, x));
                }
            }
            t
        },
        SetTransmute::Removed(r) => {
            let t = MapTransmute::Removed(r.clone());
            proof {
                assert forall|k: K, w: W, o: MapTransmuteResult<K, X, ReduceT>| #[trigger] t.gives(k, w, o) implies exists|
                    x: SetTransmuteResult<X, ReduceT>,
                | #[trigger] op.gives_entry(k, w, x) && o.new_entry() == keyed_entry(k, x) && (op is Generic ==> o.reduced()
                    == x.reduced()) by {
                    let x = SetTransmuteResult::<X, ReduceT>::Removed(*r);
                    assert(op.gives_entry(k, w, x));
                }
            }
            t
        },
    }
}

/// The entry for `k` once `transform_with_transfuted` has run on the entries
/// `left` and `right`: `both_op` on an entry of both sides, `left_op` on an entry
/// of the left side only, and `right_op`, which keeps the key, on one of the
/// right side only.
pub open spec fn transform_with_transfuted_entry<K, V, W, ReduceT, BothOp, LeftOp, RightOp>(
    both_op: MapTransform<ReduceT, BothOp>,
    left_op: MapTransform<ReduceT, LeftOp>,
    right_op: SetTransmute<ReduceT, RightOp>,
    k: K,
    left: Option<V>,
    right: Option<W>,
    after: Option<V>,
) -> bool where
    BothOp: Fn(&K, &V, &K, &W) -> MapTransformResult<V, ReduceT>,
    LeftOp: Fn(&K, &V) -> MapTransformResult<V, ReduceT>,
    RightOp: Fn(&K, &W) -> SetTransmuteResult<V, ReduceT>,
 {
    match left {
        Some(v) => match right {
            Some(w) => exists|r: MapTransformResult<V, ReduceT>| #[trigger]
                both_op.gives_transform_transmute(k, v, k, w, r) && r.applied_to(v) == after,
            None => transformed_entry(left_op, k, left, after),
        },
        None => set_transmuted_entry(right_op, k, right, after),
    }
}

/// Each operation of `transform_with_transfuted` may be run on the entries for
/// `k` that it is run on.
pub open spec fn transform_with_transfuted_accepts_entry<K, V, W, ReduceT, BothOp, LeftOp, RightOp>(
    both_op: MapTransform<ReduceT, BothOp>,
    left_op: MapTransform<ReduceT, LeftOp>,
    right_op: SetTransmute<ReduceT, RightOp>,
    k: K,
    left: Option<V>,
    right: Option<W>,
) -> bool where
    BothOp: Fn(&K, &V, &K, &W) -> MapTransformResult<V, ReduceT>,
    LeftOp: Fn(&K, &V) -> MapTransformResult<V, ReduceT>,
    RightOp: Fn(&K, &W) -> SetTransmuteResult<V, ReduceT>,
 {
    match left {
        Some(v) => match right {
            Some(w) => both_op.accepts_transform_transmute(k, v, k, w),
            None => left_op.accepts(k, v),
        },
        None => match right {
            Some(w) => right_op.accepts_entry(k, w),
            None => true,
        },
    }
}

/// `new` is what `transform_with_transfuted` makes of the maps `lm` and `rm`.
pub open spec fn transform_with_transfuted_map<K, V, W, ReduceT, BothOp, LeftOp, RightOp>(
    both_op: MapTransform<ReduceT, BothOp>,
    left_op: MapTransform<ReduceT, LeftOp>,
    right_op: SetTransmute<ReduceT, RightOp>,
    lm: Map<K, V>,
    rm: Map<K, W>,
    new: Map<K, V>,
) -> bool where
    BothOp: Fn(&K, &V, &K, &W) -> MapTransformResult<V, ReduceT>,
    LeftOp: Fn(&K, &V) -> MapTransformResult<V, ReduceT>,
    RightOp: Fn(&K, &W) -> SetTransmuteResult<V, ReduceT>,
 {
    forall|k: K|
        #![trigger lm.dom().contains(k)]
        #![trigger rm.dom().contains(k)]
        #![trigger new.dom().contains(k)]
        transform_with_transfuted_entry(both_op, left_op, right_op, k, lm.get(k), rm.get(k), new.get(k))
}

/// The operations of `transform_with_transfuted` may be run on the entries of
/// `lm` and `rm` that they are run on.
pub open spec fn transform_with_transfuted_accepts<K, V, W, ReduceT, BothOp, LeftOp, RightOp>(
    both_op: MapTransform<ReduceT, BothOp>,
    left_op: MapTransform<ReduceT, LeftOp>,
    right_op: SetTransmute<ReduceT, RightOp>,
    lm: Map<K, V>,
    rm: Map<K, W>,
) -> bool where
    BothOp: Fn(&K, &V, &K, &W) -> MapTransformResult<V, ReduceT>,
    LeftOp: Fn(&K, &V) -> MapTransformResult<V, ReduceT>,
    RightOp: Fn(&K, &W) -> SetTransmuteResult<V, ReduceT>,
 {
    forall|k: K|
        #![trigger lm.dom().contains(k)]
        #![trigger rm.dom().contains(k)]
        transform_with_transfuted_accepts_entry(both_op, left_op, right_op, k, lm.get(k), rm.get(k))
}

/// The entry for `k` once `transfute_with_transformed` has run on the entries
/// `left` and `right`: `both_op` on an entry of both sides, `left_op`, which
/// keeps the key, on an entry of the left side only, and `right_op` on one of
/// the right side only. The entries are those of the right side's types.
pub open spec fn transfute_with_transformed_entry<K, V, W, ReduceT, BothOp, LeftOp, RightOp>(
    both_op: MapTransform<ReduceT, BothOp>,
    left_op: SetTransmute<ReduceT, LeftOp>,
    right_op: MapTransform<ReduceT, RightOp>,
    k: K,
    left: Option<V>,
    right: Option<W>,
    after: Option<W>,
) -> bool where
    BothOp: Fn(&K, &V, &K, &W) -> MapTransformResult<W, ReduceT>,
    LeftOp: Fn(&K, &V) -> SetTransmuteResult<W, ReduceT>,
    RightOp: Fn(&K, &W) -> MapTransformResult<W, ReduceT>,
 {
    match right {
        Some(w) => match left {
            Some(v) => exists|r: MapTransformResult<W, ReduceT>| #[trigger]
                both_op.gives_transmute_transform(k, v, k, w, r) && r.applied_to(w) == after,
            None => transformed_entry(right_op, k, right, after),
        },
        None => set_transmuted_entry(left_op, k, left, after),
    }
}

/// Each operation of `transfute_with_transformed` may be run on the entries for
/// `k` that it is run on.
pub open spec fn transfute_with_transformed_accepts_entry<K, V, W, ReduceT, BothOp, LeftOp, RightOp>(
    both_op: MapTransform<ReduceT, BothOp>,
    left_op: SetTransmute<ReduceT, LeftOp>,
    right_op: MapTransform<ReduceT, RightOp>,
    k: K,
    left: Option<V>,
    right: Option<W>,
) -> bool where
    BothOp: Fn(&K, &V, &K, &W) -> MapTransformResult<W, ReduceT>,
    LeftOp: Fn(&K, &V) -> SetTransmuteResult<W, ReduceT>,
    RightOp: Fn(&K, &W) -> MapTransformResult<W, ReduceT>,
 {
    match right {
        Some(w) => match left {
            Some(v) => both_op.accepts_transmute_transform(k, v, k, w),
            None => right_op.accepts(k, w),
        },
        None => match left {
            Some(v) => left_op.accepts_entry(k, v),
            None => true,
        },
    }
}

/// `new` is what `transfute_with_transformed` makes of the maps `lm` and `rm`.
pub open spec fn transfute_with_transformed_map<K, V, W, ReduceT, BothOp, LeftOp, RightOp>(
    both_op: MapTransform<ReduceT, BothOp>,
    left_op: SetTransmute<ReduceT, LeftOp>,
    right_op: MapTransform<ReduceT, RightOp>,
    lm: Map<K, V>,
    rm: Map<K, W>,
    new: Map<K, W>,
) -> bool where
    BothOp: Fn(&K, &V, &K, &W) -> MapTransformResult<W, ReduceT>,
    LeftOp: Fn(&K, &V) -> SetTransmuteResult<W, ReduceT>,
    RightOp: Fn(&K, &W) -> MapTransformResult<W, ReduceT>,
 {
    forall|k: K|
        #![trigger lm.dom().contains(k)]
        #![trigger rm.dom().contains(k)]
        #![trigger new.dom().contains(k)]
        transfute_with_transformed_entry(both_op, left_op, right_op, k, lm.get(k), rm.get(k), new.get(k))
}

/// The operations of `transfute_with_transformed` may be run on the entries of
/// `lm` and `rm` that they are run on.
pub open spec fn transfute_with_transformed_accepts<K, V, W, ReduceT, BothOp, LeftOp, RightOp>(
    both_op: MapTransform<ReduceT, BothOp>,
    left_op: SetTransmute<ReduceT, LeftOp>,
    right_op: MapTransform<ReduceT, RightOp>,
    lm: Map<K, V>,
    rm: Map<K, W>,
) -> bool where
    BothOp: Fn(&K, &V, &K, &W) -> MapTransformResult<W, ReduceT>,
    LeftOp: Fn(&K, &V) -> SetTransmuteResult<W, ReduceT>,
    RightOp: Fn(&K, &W) -> MapTransformResult<W, ReduceT>,
 {
    forall|k: K|
        #![trigger lm.dom().contains(k)]
        #![trigger rm.dom().contains(k)]
        transfute_with_transformed_accepts_entry(both_op, left_op, right_op, k, lm.get(k), rm.get(k))
}

impl<ReduceT, F> MapTransmute<ReduceT, F> {
    /// The joint transmutation may be run on the entries `(k, v)` and `(l, w)`.
    pub open spec fn accepts_pair<K, V, L, W, S, X>(self, k: K, v: V, l: L, w: W) -> bool where
        F: Fn(&K, &V, &L, &W) -> MapTransmuteResult<S, X, ReduceT>,
     {
        self matches MapTransmute::Generic(f) ==> f.requires((&k, &v, &l, &w))
    }

    /// `r` is a result that the joint transmutation may give for the entries `(k, v)` and `(l, w)`.
    pub open spec fn gives_pair<K, V, L, W, S, X>(self, k: K, v: V, l: L, w: W, r: MapTransmuteResult<S, X, ReduceT>) -> bool where
        F: Fn(&K, &V, &L, &W) -> MapTransmuteResult<S, X, ReduceT>,
     {
        match self {
            MapTransmute::Generic(f) => f.ensures((&k, &v, &l, &w), r),
            MapTransmute::Removed(_) => r is Removed,
        }
    }
}

/// `r` is a result that `transmute_with_transmuted` may give for the key `k`
/// with the entries `left` and `right`: one of `both_op` for an entry on both
/// sides, of `left_op` or `right_op` for an entry on one side only.
pub open spec fn joint_transmute_gives<K, V, W, S, X, ReduceT, BothOp, LeftOp, RightOp>(
    both_op: MapTransmute<ReduceT, BothOp>,
    left_op: MapTransmute<ReduceT, LeftOp>,
    right_op: MapTransmute<ReduceT, RightOp>,
    k: K,
    left: Option<V>,
    right: Option<W>,
    r: MapTransmuteResult<S, X, ReduceT>,
) -> bool where
    BothOp: Fn(&K, &V, &K, &W) -> MapTransmuteResult<S, X, ReduceT>,
    LeftOp: Fn(&K, &V) -> MapTransmuteResult<S, X, ReduceT>,
    RightOp: Fn(&K, &W) -> MapTransmuteResult<S, X, ReduceT>,
 {
    match left {
        Some(v) => match right {
            Some(w) => both_op.gives_pair(k, v, k, w, r),
            None => left_op.gives(k, v, r),
        },
        None => match right {
            Some(w) => right_op.gives(k, w, r),
            None => false,
        },
    }
}

/// Each operation of `transmute_with_transmuted` may be run on the entries for
/// `k` that it is run on.
pub open spec fn joint_transmute_accepts_entry<K, V, W, S, X, ReduceT, BothOp, LeftOp, RightOp>(
    both_op: MapTransmute<ReduceT, BothOp>,
    left_op: MapTransmute<ReduceT, LeftOp>,
    right_op: MapTransmute<ReduceT, RightOp>,
    k: K,
    left: Option<V>,
    right: Option<W>,
) -> bool where
    BothOp: Fn(&K, &V, &K, &W) -> MapTransmuteResult<S, X, ReduceT>,
    LeftOp: Fn(&K, &V) -> MapTransmuteResult<S, X, ReduceT>,
    RightOp: Fn(&K, &W) -> MapTransmuteResult<S, X, ReduceT>,
 {
    match left {
        Some(v) => match right {
            Some(w) => both_op.accepts_pair::<K, V, K, W, S, X>(k, v, k, w),
            None => left_op.accepts::<K, V, S, X>(k, v),
        },
        None => match right {
            Some(w) => right_op.accepts::<K, W, S, X>(k, w),
            None => true,
        },
    }
}

/// The operations of `transmute_with_transmuted` may be run on the entries of
/// `lm` and `rm` that they are run on.
pub open spec fn transmute_with_transmuted_accepts<K, V, W, S, X, ReduceT, BothOp, LeftOp, RightOp>(
    both_op: MapTransmute<ReduceT, BothOp>,
    left_op: MapTransmute<ReduceT, LeftOp>,
    right_op: MapTransmute<ReduceT, RightOp>,
    lm: Map<K, V>,
    rm: Map<K, W>,
) -> bool where
    BothOp: Fn(&K, &V, &K, &W) -> MapTransmuteResult<S, X, ReduceT>,
    LeftOp: Fn(&K, &V) -> MapTransmuteResult<S, X, ReduceT>,
    RightOp: Fn(&K, &W) -> MapTransmuteResult<S, X, ReduceT>,
 {
    forall|k: K|
        #![trigger lm.dom().contains(k)]
        #![trigger rm.dom().contains(k)]
        joint_transmute_accepts_entry::<K, V, W, S, X, ReduceT, BothOp, LeftOp, RightOp>(
            both_op,
            left_op,
            right_op,
            k,
            lm.get(k),
            rm.get(k),
        )
}

/// Every result that the operations of `transmute_with_transmuted` may give for
/// the entries of `lm` and `rm` keeps the hash of the key, and the results for
/// distinct keys make distinct keys: the new entries can stay where the old
/// ones were.
pub open spec fn transmute_with_transmuted_keeps_places<K, V, W, S, X, ReduceT, BothOp, LeftOp, RightOp, M>(
    both_op: MapTransmute<ReduceT, BothOp>,
    left_op: MapTransmute<ReduceT, LeftOp>,
    right_op: MapTransmute<ReduceT, RightOp>,
    lm: Map<K, V>,
    rm: Map<K, W>,
) -> bool where
    BothOp: Fn(&K, &V, &K, &W) -> MapTransmuteResult<S, X, ReduceT>,
    LeftOp: Fn(&K, &V) -> MapTransmuteResult<S, X, ReduceT>,
    RightOp: Fn(&K, &W) -> MapTransmuteResult<S, X, ReduceT>,
    M: crate::hashing::HasherBv<u64, K> + crate::hashing::HasherBv<u64, S>,
 {
    &&& forall|k: K, r: MapTransmuteResult<S, X, ReduceT>|
        #![trigger joint_transmute_gives(both_op, left_op, right_op, k, lm.get(k), rm.get(k), r)]
        joint_transmute_gives(both_op, left_op, right_op, k, lm.get(k), rm.get(k), r) && r.new_entry() is Some
            ==> <M as crate::hashing::HasherBv<u64, S>>::hash_of(r.new_entry()->Some_0.0) == <M as crate::hashing::HasherBv<
            u64,
            K,
        >>::hash_of(k)
    &&& forall|k1: K, k2: K, r1: MapTransmuteResult<S, X, ReduceT>, r2: MapTransmuteResult<S, X, ReduceT>|
        #![trigger joint_transmute_gives(both_op, left_op, right_op, k1, lm.get(k1), rm.get(k1), r1), joint_transmute_gives(both_op, left_op, right_op, k2, lm.get(k2), rm.get(k2), r2)]
        k1 != k2 && joint_transmute_gives(both_op, left_op, right_op, k1, lm.get(k1), rm.get(k1), r1)
            && joint_transmute_gives(both_op, left_op, right_op, k2, lm.get(k2), rm.get(k2), r2) && r1.new_entry() is Some
            && r2.new_entry() is Some ==> r1.new_entry()->Some_0.0 != r2.new_entry()->Some_0.0
}

/// `new` is what `transmute_with_transmuted` makes of the maps `lm` and `rm`:
/// each key of either map gives a result that the operation run on its entries
/// may give, and `new` holds the new entries of those results and nothing else.
pub open spec fn transmute_with_transmuted_map<K, V, W, S, X, ReduceT, BothOp, LeftOp, RightOp>(
    both_op: MapTransmute<ReduceT, BothOp>,
    left_op: MapTransmute<ReduceT, LeftOp>,
    right_op: MapTransmute<ReduceT, RightOp>,
    lm: Map<K, V>,
    rm: Map<K, W>,
    new: Map<S, X>,
) -> bool where
    BothOp: Fn(&K, &V, &K, &W) -> MapTransmuteResult<S, X, ReduceT>,
    LeftOp: Fn(&K, &V) -> MapTransmuteResult<S, X, ReduceT>,
    RightOp: Fn(&K, &W) -> MapTransmuteResult<S, X, ReduceT>,
 {
    exists|outcomes: Map<K, MapTransmuteResult<S, X, ReduceT>>|
        #![trigger joint_transmuted_by(lm, rm, outcomes, new)]
        joint_transmuted_by(lm, rm, outcomes, new) && forall|k: K| #[trigger]
            outcomes.dom().contains(k) ==> joint_transmute_gives(both_op, left_op, right_op, k, lm.get(k), rm.get(k), outcomes[k])
}

/// `new` holds what the results `outcomes`, one for each key of `lm` or `rm`,
/// say: the new entry of each transmuted entry, and nothing else.
pub open spec fn joint_transmuted_by<K, V, W, S, X, ReduceT>(
    lm: Map<K, V>,
    rm: Map<K, W>,
    outcomes: Map<K, MapTransmuteResult<S, X, ReduceT>>,
    new: Map<S, X>,
) -> bool {
    &&& outcomes.dom() == lm.dom().union(rm.dom())
    &&& forall|k: K| #[trigger]
        outcomes.dom().contains(k) && outcomes[k].new_entry() is Some ==> new.get(outcomes[k].new_entry()->Some_0.0)
            == Some(outcomes[k].new_entry()->Some_0.1)
    &&& forall|s: S| #[trigger]
        new.dom().contains(s) ==> exists|k: K| #[trigger]
            outcomes.dom().contains(k) && outcomes[k].new_entry() is Some && outcomes[k].new_entry()->Some_0.0 == s
}

/// The entry for the key `k` of the left map, which holds `v`, once
/// `transform_with_transmuted` has run: `both_op` when the right map holds an
/// entry for `k` too, `left_op` when it does not.
pub open spec fn transform_with_transmuted_left_entry<K, V, W, ReduceT, BothOp, LeftOp>(
    both_op: MapTransform<ReduceT, BothOp>,
    left_op: MapTransform<ReduceT, LeftOp>,
    k: K,
    v: V,
    right: Option<W>,
    after: Option<V>,
) -> bool where
    BothOp: Fn(&K, &V, &K, &W) -> MapTransformResult<V, ReduceT>,
    LeftOp: Fn(&K, &V) -> MapTransformResult<V, ReduceT>,
 {
    match right {
        Some(w) => exists|r: MapTransformResult<V, ReduceT>| #[trigger]
            both_op.gives_transform_transmute(k, v, k, w, r) && r.applied_to(v) == after,
        None => exists|r: MapTransformResult<V, ReduceT>| #[trigger] left_op.gives(k, v, r) && r.applied_to(v) == after,
    }
}

/// Each operation of `transform_with_transmuted` may be run on the entries for
/// `k` that it is run on.
pub open spec fn transform_with_transmuted_accepts_entry<K, V, W, ReduceT, BothOp, LeftOp, RightOp>(
    both_op: MapTransform<ReduceT, BothOp>,
    left_op: MapTransform<ReduceT, LeftOp>,
    right_op: MapTransmute<ReduceT, RightOp>,
    k: K,
    left: Option<V>,
    right: Option<W>,
) -> bool where
    BothOp: Fn(&K, &V, &K, &W) -> MapTransformResult<V, ReduceT>,
    LeftOp: Fn(&K, &V) -> MapTransformResult<V, ReduceT>,
    RightOp: Fn(&K, &W) -> MapTransmuteResult<K, V, ReduceT>,
 {
    match left {
        Some(v) => match right {
            Some(w) => both_op.accepts_transform_transmute(k, v, k, w),
            None => left_op.accepts(k, v),
        },
        None => match right {
            Some(w) => right_op.accepts::<K, W, K, V>(k, w),
            None => true,
        },
    }
}

/// The operations of `transform_with_transmuted` may be run on the entries of
/// `lm` and `rm` that they are run on.
pub open spec fn transform_with_transmuted_accepts<K, V, W, ReduceT, BothOp, LeftOp, RightOp>(
    both_op: MapTransform<ReduceT, BothOp>,
    left_op: MapTransform<ReduceT, LeftOp>,
    right_op: MapTransmute<ReduceT, RightOp>,
    lm: Map<K, V>,
    rm: Map<K, W>,
) -> bool where
    BothOp: Fn(&K, &V, &K, &W) -> MapTransformResult<V, ReduceT>,
    LeftOp: Fn(&K, &V) -> MapTransformResult<V, ReduceT>,
    RightOp: Fn(&K, &W) -> MapTransmuteResult<K, V, ReduceT>,
 {
    forall|k: K|
        #![trigger lm.dom().contains(k)]
        #![trigger rm.dom().contains(k)]
        transform_with_transmuted_accepts_entry(both_op, left_op, right_op, k, lm.get(k), rm.get(k))
}

/// Every result that `right_op` may give for an entry of `rm` whose key `lm`
/// does not hold keeps the hash of the key and makes a key that `lm` does not
/// hold, and the results for distinct keys make distinct keys: the new entries
/// can stay where the old ones were, beside those of `lm`.
pub open spec fn transform_with_transmuted_keeps_places<K, V, W, ReduceT, RightOp, M>(
    right_op: MapTransmute<ReduceT, RightOp>,
    lm: Map<K, V>,
    rm: Map<K, W>,
) -> bool where RightOp: Fn(&K, &W) -> MapTransmuteResult<K, V, ReduceT>, M: crate::hashing::HasherBv<u64, K> {
    &&& forall|k: K, r: MapTransmuteResult<K, V, ReduceT>|
        #![trigger right_op.gives(k, rm[k], r)]
        rm.dom().contains(k) && !lm.dom().contains(k) && right_op.gives(k, rm[k], r) && r.new_entry() is Some ==> M::hash_of(
            r.new_entry()->Some_0.0,
        ) == M::hash_of(k) && !lm.dom().contains(r.new_entry()->Some_0.0)
    &&& forall|k1: K, k2: K, r1: MapTransmuteResult<K, V, ReduceT>, r2: MapTransmuteResult<K, V, ReduceT>|
        #![trigger right_op.gives(k1, rm[k1], r1), right_op.gives(k2, rm[k2], r2)]
        rm.dom().contains(k1) && !lm.dom().contains(k1) && rm.dom().contains(k2) && !lm.dom().contains(k2) && k1 != k2
            && right_op.gives(k1, rm[k1], r1) && right_op.gives(k2, rm[k2], r2) && r1.new_entry() is Some
            && r2.new_entry() is Some ==> r1.new_entry()->Some_0.0 != r2.new_entry()->Some_0.0
}

/// `new` holds what `transform_with_transmuted` makes of the maps `lm` and `rm`
/// with the results `outcomes` of `right_op`, one for each key of `rm` that
/// `lm` does not hold: the entry for each key of `lm` that the operation run on
/// it gives, the new entry of each transmuted entry, and nothing else.
pub open spec fn transform_with_transmuted_by<K, V, W, ReduceT, BothOp, LeftOp, RightOp>(
    both_op: MapTransform<ReduceT, BothOp>,
    left_op: MapTransform<ReduceT, LeftOp>,
    right_op: MapTransmute<ReduceT, RightOp>,
    lm: Map<K, V>,
    rm: Map<K, W>,
    outcomes: Map<K, MapTransmuteResult<K, V, ReduceT>>,
    new: Map<K, V>,
) -> bool where
    BothOp: Fn(&K, &V, &K, &W) -> MapTransformResult<V, ReduceT>,
    LeftOp: Fn(&K, &V) -> MapTransformResult<V, ReduceT>,
    RightOp: Fn(&K, &W) -> MapTransmuteResult<K, V, ReduceT>,
 {
    &&& outcomes.dom() == rm.dom().difference(lm.dom())
    &&& forall|k: K| #[trigger] outcomes.dom().contains(k) ==> right_op.gives(k, rm[k], outcomes[k])
    &&& forall|k: K| #[trigger]
        lm.dom().contains(k) ==> transform_with_transmuted_left_entry(both_op, left_op, k, lm[k], rm.get(k), new.get(k))
    &&& forall|k: K| #[trigger]
        outcomes.dom().contains(k) && outcomes[k].new_entry() is Some ==> new.get(outcomes[k].new_entry()->Some_0.0)
            == Some(outcomes[k].new_entry()->Some_0.1)
    &&& forall|s: K| #[trigger]
        new.dom().contains(s) && !lm.dom().contains(s) ==> exists|k: K| #[trigger]
            outcomes.dom().contains(k) && outcomes[k].new_entry() is Some && outcomes[k].new_entry()->Some_0.0 == s
}

/// `new` is what `transform_with_transmuted` makes of the maps `lm` and `rm`.
pub open spec fn transform_with_transmuted_map<K, V, W, ReduceT, BothOp, LeftOp, RightOp>(
    both_op: MapTransform<ReduceT, BothOp>,
    left_op: MapTransform<ReduceT, LeftOp>,
    right_op: MapTransmute<ReduceT, RightOp>,
    lm: Map<K, V>,
    rm: Map<K, W>,
    new: Map<K, V>,
) -> bool where
    BothOp: Fn(&K, &V, &K, &W) -> MapTransformResult<V, ReduceT>,
    LeftOp: Fn(&K, &V) -> MapTransformResult<V, ReduceT>,
    RightOp: Fn(&K, &W) -> MapTransmuteResult<K, V, ReduceT>,
 {
    exists|outcomes: Map<K, MapTransmuteResult<K, V, ReduceT>>|
        #![trigger transform_with_transmuted_by(both_op, left_op, right_op, lm, rm, outcomes, new)]
        transform_with_transmuted_by(both_op, left_op, right_op, lm, rm, outcomes, new)
}

/// The entry for the key `k` of the right map, which holds `w`, once
/// `transmute_with_transformed` has run: `both_op` when the left map holds an
/// entry for `k` too, `right_op` when it does not.
pub open spec fn transmute_with_transformed_right_entry<K, V, W, ReduceT, BothOp, RightOp>(
    both_op: MapTransform<ReduceT, BothOp>,
    right_op: MapTransform<ReduceT, RightOp>,
    k: K,
    w: W,
    left: Option<V>,
    after: Option<W>,
) -> bool where
    BothOp: Fn(&K, &V, &K, &W) -> MapTransformResult<W, ReduceT>,
    RightOp: Fn(&K, &W) -> MapTransformResult<W, ReduceT>,
 {
    match left {
        Some(v) => exists|r: MapTransformResult<W, ReduceT>| #[trigger]
            both_op.gives_transmute_transform(k, v, k, w, r) && r.applied_to(w) == after,
        None => exists|r: MapTransformResult<W, ReduceT>| #[trigger] right_op.gives(k, w, r) && r.applied_to(w) == after,
    }
}

/// Each operation of `transmute_with_transformed` may be run on the entries for
/// `k` that it is run on.
pub open spec fn transmute_with_transformed_accepts_entry<K, V, W, ReduceT, BothOp, LeftOp, RightOp>(
    both_op: MapTransform<ReduceT, BothOp>,
    left_op: MapTransmute<ReduceT, LeftOp>,
    right_op: MapTransform<ReduceT, RightOp>,
    k: K,
    left: Option<V>,
    right: Option<W>,
) -> bool where
    BothOp: Fn(&K, &V, &K, &W) -> MapTransformResult<W, ReduceT>,
    LeftOp: Fn(&K, &V) -> MapTransmuteResult<K, W, ReduceT>,
    RightOp: Fn(&K, &W) -> MapTransformResult<W, ReduceT>,
 {
    match right {
        Some(w) => match left {
            Some(v) => both_op.accepts_transmute_transform(k, v, k, w),
            None => right_op.accepts(k, w),
        },
        None => match left {
            Some(v) => left_op.accepts::<K, V, K, W>(k, v),
            None => true,
        },
    }
}

/// The operations of `transmute_with_transformed` may be run on the entries of
/// `lm` and `rm` that they are run on.
pub open spec fn transmute_with_transformed_accepts<K, V, W, ReduceT, BothOp, LeftOp, RightOp>(
    both_op: MapTransform<ReduceT, BothOp>,
    left_op: MapTransmute<ReduceT, LeftOp>,
    right_op: MapTransform<ReduceT, RightOp>,
    lm: Map<K, V>,
    rm: Map<K, W>,
) -> bool where
    BothOp: Fn(&K, &V, &K, &W) -> MapTransformResult<W, ReduceT>,
    LeftOp: Fn(&K, &V) -> MapTransmuteResult<K, W, ReduceT>,
    RightOp: Fn(&K, &W) -> MapTransformResult<W, ReduceT>,
 {
    forall|k: K|
        #![trigger lm.dom().contains(k)]
        #![trigger rm.dom().contains(k)]
        transmute_with_transformed_accepts_entry(both_op, left_op, right_op, k, lm.get(k), rm.get(k))
}

/// Every result that `left_op` may give for an entry of `lm` whose key `rm`
/// does not hold keeps the hash of the key and makes a key that `rm` does not
/// hold, and the results for distinct keys make distinct keys.
pub open spec fn transmute_with_transformed_keeps_places<K, V, W, ReduceT, LeftOp, M>(
    left_op: MapTransmute<ReduceT, LeftOp>,
    lm: Map<K, V>,
    rm: Map<K, W>,
) -> bool where LeftOp: Fn(&K, &V) -> MapTransmuteResult<K, W, ReduceT>, M: crate::hashing::HasherBv<u64, K> {
    transform_with_transmuted_keeps_places::<K, W, V, ReduceT, LeftOp, M>(left_op, rm, lm)
}

/// `new` holds what `transmute_with_transformed` makes of the maps `lm` and `rm`
/// with the results `outcomes` of `left_op`, one for each key of `lm` that `rm`
/// does not hold: the entry for each key of `rm` that the operation run on it
/// gives, the new entry of each transmuted entry, and nothing else.
pub open spec fn transmute_with_transformed_by<K, V, W, ReduceT, BothOp, LeftOp, RightOp>(
    both_op: MapTransform<ReduceT, BothOp>,
    left_op: MapTransmute<ReduceT, LeftOp>,
    right_op: MapTransform<ReduceT, RightOp>,
    lm: Map<K, V>,
    rm: Map<K, W>,
    outcomes: Map<K, MapTransmuteResult<K, W, ReduceT>>,
    new: Map<K, W>,
) -> bool where
    BothOp: Fn(&K, &V, &K, &W) -> MapTransformResult<W, ReduceT>,
    LeftOp: Fn(&K, &V) -> MapTransmuteResult<K, W, ReduceT>,
    RightOp: Fn(&K, &W) -> MapTransformResult<W, ReduceT>,
 {
    &&& outcomes.dom() == lm.dom().difference(rm.dom())
    &&& forall|k: K| #[trigger] outcomes.dom().contains(k) ==> left_op.gives(k, lm[k], outcomes[k])
    &&& forall|k: K| #[trigger]
        rm.dom().contains(k) ==> transmute_with_transformed_right_entry(both_op, right_op, k, rm[k], lm.get(k), new.get(k))
    &&& forall|k: K| #[trigger]
        outcomes.dom().contains(k) && outcomes[k].new_entry() is Some ==> new.get(outcomes[k].new_entry()->Some_0.0)
            == Some(outcomes[k].new_entry()->Some_0.1)
    &&& forall|s: K| #[trigger]
        new.dom().contains(s) && !rm.dom().contains(s) ==> exists|k: K| #[trigger]
            outcomes.dom().contains(k) && outcomes[k].new_entry() is Some && outcomes[k].new_entry()->Some_0.0 == s
}

/// `new` is what `transmute_with_transformed` makes of the maps `lm` and `rm`.
pub open spec fn transmute_with_transformed_map<K, V, W, ReduceT, BothOp, LeftOp, RightOp>(
    both_op: MapTransform<ReduceT, BothOp>,
    left_op: MapTransmute<ReduceT, LeftOp>,
    right_op: MapTransform<ReduceT, RightOp>,
    lm: Map<K, V>,
    rm: Map<K, W>,
    new: Map<K, W>,
) -> bool where
    BothOp: Fn(&K, &V, &K, &W) -> MapTransformResult<W, ReduceT>,
    LeftOp: Fn(&K, &V) -> MapTransmuteResult<K, W, ReduceT>,
    RightOp: Fn(&K, &W) -> MapTransformResult<W, ReduceT>,
 {
    exists|outcomes: Map<K, MapTransmuteResult<K, W, ReduceT>>|
        #![trigger transmute_with_transformed_by(both_op, left_op, right_op, lm, rm, outcomes, new)]
        transmute_with_transformed_by(both_op, left_op, right_op, lm, rm, outcomes, new)
}

} // verus!
