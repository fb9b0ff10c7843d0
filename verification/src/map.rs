//! `HashTrieMap`: a persistent hash map on a hash array mapped trie.
use vstd::prelude::*;
use crate::hash_trie::HashTrie;
use crate::hashing::{HasherBv, Key};
use crate::enums::ParallelismStrategy;
use crate::reduction::{Reduction, lemma_reduction_counts, lemma_reduction_len, reduced_keys, reduction_fits};
use crate::results::{HashTrieError, MapJointTransformResult, MapTransformResult, MapTransmuteResult, SetTransmuteResult};
use crate::transformations::{
    MapJointTransform, MapTransform, MapTransmute, SetTransmute, transfute_with_transformed_accepts, transfute_with_transformed_map,
    transmute_with_transmuted_accepts, transmute_with_transmuted_keeps_places, transmute_with_transmuted_map,
    joint_transmute_gives, joint_transmuted_by,
    transform_with_transfuted_accepts, transform_with_transfuted_map, transfute_with_transformed_entry,
    transform_with_transfuted_entry, accepts_all, joint_accepts_all, joint_transformed_entry,
    joint_transformed_map, reduces_all, transformed_entry, transformed_map, transmute_accepts_all, transmute_keeps_places,
    transmuted_by, transmuted_map, transform_with_transmuted_accepts, transform_with_transmuted_keeps_places,
    transform_with_transmuted_map, transmute_with_transformed_accepts, transmute_with_transformed_keeps_places,
    transmute_with_transformed_map, transform_with_transmuted_by, transform_with_transmuted_left_entry,
    transmute_with_transformed_by, transmute_with_transformed_right_entry, transform_reduced,
    transmute_reduced, joint_reduced, transform_entries_ok, transform_others_ok, transmute_entries_ok,
    transmute_others_ok, lookup_keys, joint_entries_ok, joint_others_ok, transfuted_reduced, transform_entry_reduced,
    joint_entry_reduced,
    transfute_reduced, joint_transmute_reduced, transform_transmute_reduced, transmute_transform_reduced, pair_reduced_at,
    pair_entries_ok,
};

verus! {

/// `HashTrieMap` implements a hash map using a hash array mapped trie (HAMT).
///
/// Every operation leaves the map it is called on unchanged and returns a new
/// map, which shares the untouched nodes with the old one.
pub struct HashTrieMap<K: Key, V, M: HasherBv<u64, K>> {
    set: HashTrie<K, V, M>,
}

impl<K: Key, V, M: HasherBv<u64, K>> View for HashTrieMap<K, V, M> {
    type V = Map<K, V>;

    closed spec fn view(&self) -> Map<K, V> {
        self.set@
    }
}

impl<K: Key, V, M: HasherBv<u64, K>> Clone for HashTrieMap<K, V, M> {
    /// A map sharing this map's nodes.
    fn clone(&self) -> (r: Self)
        ensures
            r@ == self@,
    {
        HashTrieMap { set: self.set.clone() }
    }
}

impl<K: Key, V, M: HasherBv<u64, K>> Default for HashTrieMap<K, V, M> {
    /// An empty map.
    fn default() -> (r: Self)
        ensures
            r@ == Map::<K, V>::empty(),
    {
        Self::new()
    }
}

impl<K: Key, V, M: HasherBv<u64, K>> HashTrieMap<K, V, M> {
    /// Get a new, empty HashTrieMap.
    pub fn new() -> (r: Self)
        ensures
            r@ == Map::<K, V>::empty(),
    {
        HashTrieMap { set: HashTrie::new() }
    }

    /// Get the total number of entries in the map.
    pub fn size(&self) -> (r: usize)
        ensures
            self@.dom().finite(),
            r == self@.len(),
    {
        self.set.size()
    }

    /// Search the HashTrieMap for the given key and return references if found, or `HashTrieError::NotFound` if not found.
    pub fn find<'a>(&'a self, key: &K) -> (r: Result<(&'a K, &'a V), HashTrieError>)
        ensures
            match r {
                Ok((k, v)) => self@.contains_key(*key) && *k == *key && *v == self@[*key],
                Err(e) => !self@.contains_key(*key) && e == HashTrieError::NotFound,
            },
    {
        self.set.find(key)
    }

    /// Search the HashTrieMap for the spot to insert the key and return both a mutated map and, if applicable, references to the replaced values.
    /// If found and replacement is disabled, references to the existing values are returned.
    pub fn insert<'a>(&'a self, key: K, value: V, replace: bool) -> (r: Result<
        (Self, Option<(&'a K, &'a V)>),
        (&'a K, &'a V),
    >)
        requires
            self@.len() < usize::MAX,
        ensures
            match r {
                Ok((m, prev)) => {
                    &&& m@ == self@.insert(key, value)
                    &&& match prev {
                        Some((k, v)) => replace && self@.contains_key(key) && *k == key && *v == self@[key],
                        None => !self@.contains_key(key),
                    }
                },
                Err((k, v)) => !replace && self@.contains_key(key) && *k == key && *v == self@[key],
            },
    {
        match self.set.insert(key, value, replace) {
            Ok((set, prev)) => Ok((HashTrieMap { set }, prev)),
            Err(found) => Err(found),
        }
    }

    /// Search the HashTrieMap for the given key to remove and return a mutated map, or `HashTrieError::NotFound` if not found.
    pub fn remove<'a>(&'a self, key: &K) -> (r: Result<(Self, &'a K, &'a V), HashTrieError>)
        ensures
            match r {
                Ok((m, k, v)) => self@.contains_key(*key) && m@ == self@.remove(*key) && *k == *key && *v
                    == self@[*key],
                Err(e) => !self@.contains_key(*key) && e == HashTrieError::NotFound,
            },
    {
        match self.set.remove(key) {
            Ok((set, k, v)) => Ok((HashTrieMap { set }, k, v)),
            Err(e) => Err(e),
        }
    }

    /// Run an operation on each entry in the map.
    pub fn visit<Op>(&self, op: Op) where Op: Fn(&K, &V)
        requires
            forall|k: K| #[trigger] self@.dom().contains(k) ==> op.requires((&k, &self@[k])),
        ensures
            forall|k: K| #[trigger] self@.dom().contains(k) ==> op.ensures((&k, &self@[k]), ()),
    {
        proof {
            assert forall|k: K| #[trigger] self.set@.dom().contains(k) implies (&op).requires((&k, &self.set@[k])) by {
                assert(self@.dom().contains(k));
            }
        }
        self.set.visit(&op);
    }

    /// Run a transform operation on each entry in the map. Returns the transformed map and a reduction of the secondary returns of the transform operations.
    ///
    /// The entries are visited one after another on the calling thread, whatever the strategy.
    pub fn transform<ReduceT, ReduceOp, Op>(
        &self,
        reduce_op: ReduceOp,
        op: MapTransform<ReduceT, Op>,
        par_strat: ParallelismStrategy,
    ) -> (r: (Self, ReduceT)) where
        ReduceT: Clone + Default,
        ReduceOp: Fn(&ReduceT, &ReduceT) -> ReduceT,
        Op: Fn(&K, &V) -> MapTransformResult<V, ReduceT>,

        requires
            accepts_all(op, self@),
            reduces_all(reduce_op),
        ensures
            transformed_map(op, self@, r.0@),
            transform_reduced(reduce_op, op, self@, r.1),
    {
        let (set, reduced) = self.set.transform(&reduce_op, &op);
        (HashTrieMap { set }, reduced)
    }

    /// Run a transmute operation on each entry in the map. Returns the transmuted map and a reduction of the secondary returns of the transmute operations.
    ///
    /// Each new entry takes the place of the entry it comes from, so each new
    /// key must hash as the key it comes from, and distinct keys must give
    /// distinct new keys.
    pub fn transmute<S: Key, X, ReduceT, ReduceOp, Op>(
        &self,
        reduce_op: ReduceOp,
        op: MapTransmute<ReduceT, Op>,
    ) -> (r: (HashTrieMap<S, X, M>, ReduceT)) where
        ReduceT: Clone + Default,
        ReduceOp: Fn(&ReduceT, &ReduceT) -> ReduceT,
        Op: Fn(&K, &V) -> MapTransmuteResult<S, X, ReduceT>,
        M: HasherBv<u64, S>,

        requires
            transmute_accepts_all(op, self@),
            transmute_keeps_places::<K, V, S, X, ReduceT, Op, M>(op, self@),
            reduces_all(reduce_op),
        ensures
            transmuted_map(op, self@, r.0@),
            transmute_reduced(reduce_op, op, self@, r.1),
    {
        let (set, reduced) = self.set.transmute(&reduce_op, &op);
        (HashTrieMap { set }, reduced)
    }

    /// Run a transform operation on each entry or pair of entries in the maps. Returns the transformed map and a reduction of the secondary returns of the transmute operations. Can reuse nodes from either map.
    ///
    /// The entries are visited one after another on the calling thread, whatever the strategy.
    pub fn transform_with_transformed<ReduceT, ReduceOp, BothOp, LeftOp, RightOp>(
        &self,
        right: &Self,
        reduce_op: ReduceOp,
        both_op: MapJointTransform<ReduceT, BothOp>,
        left_op: MapTransform<ReduceT, LeftOp>,
        right_op: MapTransform<ReduceT, RightOp>,
        par_strat: ParallelismStrategy,
    ) -> (r: (Self, ReduceT)) where
        ReduceT: Clone + Default,
        ReduceOp: Fn(&ReduceT, &ReduceT) -> ReduceT,
        BothOp: Fn(&K, &V, &K, &V) -> MapJointTransformResult<V, ReduceT>,
        LeftOp: Fn(&K, &V) -> MapTransformResult<V, ReduceT>,
        RightOp: Fn(&K, &V) -> MapTransformResult<V, ReduceT>,

        requires
            joint_accepts_all(both_op, left_op, right_op, self@, right@),
            reduces_all(reduce_op),
            self@.dom().union(right@.dom()).len() <= usize::MAX,
        ensures
            joint_transformed_map(both_op, left_op, right_op, self@, right@, r.0@),
            joint_reduced(reduce_op, both_op, left_op, right_op, self@, right@, r.1),
    {
        let (set, reduced) = self.set.transform_with_transformed(&right.set, &reduce_op, &both_op, &left_op, &right_op);
        (HashTrieMap { set }, reduced)
    }

    /// Run a transform/transmute operation on each entry or pair of entries in the maps. Returns the transmuted map and a reduction of the secondary returns of the transmute operations. Can reuse nodes from the transformed map. The transmutation of the right map's values keeps their keys.
    ///
    /// The entries are visited one after another on the calling thread, whatever the strategy.
    pub fn transform_with_transfuted<W, ReduceT, ReduceOp, BothOp, LeftOp, RightOp>(
        &self,
        right: &HashTrieMap<K, W, M>,
        reduce_op: ReduceOp,
        both_op: MapTransform<ReduceT, BothOp>,
        left_op: MapTransform<ReduceT, LeftOp>,
        right_op: SetTransmute<ReduceT, RightOp>,
        par_strat: ParallelismStrategy,
    ) -> (r: (Self, ReduceT)) where
        ReduceT: Clone + Default,
        ReduceOp: Fn(&ReduceT, &ReduceT) -> ReduceT,
        BothOp: Fn(&K, &V, &K, &W) -> MapTransformResult<V, ReduceT>,
        LeftOp: Fn(&K, &V) -> MapTransformResult<V, ReduceT>,
        RightOp: Fn(&K, &W) -> SetTransmuteResult<V, ReduceT>,

        requires
            transform_with_transfuted_accepts(both_op, left_op, right_op, self@, right@),
            reduces_all(reduce_op),
            self@.dom().union(right@.dom()).len() <= usize::MAX,
        ensures
            transform_with_transfuted_map(both_op, left_op, right_op, self@, right@, r.0@),
            transfuted_reduced(reduce_op, both_op, left_op, right_op, self@, right@, r.1),
    {
        let (set, reduced) = self.set.transform_with_transfuted(&right.set, &reduce_op, &both_op, &left_op, &right_op);
        (HashTrieMap { set }, reduced)
    }

    /// Run a transmute/transform operation on each entry or pair of entries in the maps. Returns the transmuted map and a reduction of the secondary returns of the transmute operations. Can reuse nodes from the transformed map. The transmutation of the left map's values keeps their keys.
    ///
    /// The entries are visited one after another on the calling thread, whatever the strategy.
    pub fn transfute_with_transformed<W, ReduceT, ReduceOp, BothOp, LeftOp, RightOp>(
        &self,
        right: &HashTrieMap<K, W, M>,
        reduce_op: ReduceOp,
        both_op: MapTransform<ReduceT, BothOp>,
        left_op: SetTransmute<ReduceT, LeftOp>,
        right_op: MapTransform<ReduceT, RightOp>,
        par_strat: ParallelismStrategy,
    ) -> (r: (HashTrieMap<K, W, M>, ReduceT)) where
        ReduceT: Clone + Default,
        ReduceOp: Fn(&ReduceT, &ReduceT) -> ReduceT,
        BothOp: Fn(&K, &V, &K, &W) -> MapTransformResult<W, ReduceT>,
        LeftOp: Fn(&K, &V) -> SetTransmuteResult<W, ReduceT>,
        RightOp: Fn(&K, &W) -> MapTransformResult<W, ReduceT>,

        requires
            transfute_with_transformed_accepts(both_op, left_op, right_op, self@, right@),
            reduces_all(reduce_op),
            self@.dom().union(right@.dom()).len() <= usize::MAX,
        ensures
            transfute_with_transformed_map(both_op, left_op, right_op, self@, right@, r.0@),
            transfute_reduced(reduce_op, both_op, left_op, right_op, self@, right@, r.1),
    {
        let (set, reduced) = self.set.transfute_with_transformed(&right.set, &reduce_op, &both_op, &left_op, &right_op);
        (HashTrieMap { set }, reduced)
    }

    /// Run a transform/transmute operation on each entry or pair of entries in the maps. Returns the transmuted map and a reduction of the secondary returns of the transmute operations. Can reuse nodes from the transformed map.
    ///
    /// Both maps are keyed by `K`. An entry of the right map alone takes the
    /// place of the entry it comes from, so its new key must hash as the old
    /// one, must not be a key of the left map, and distinct keys must give
    /// distinct new keys. The entries are visited one after another on the
    /// calling thread, whatever the strategy.
    pub fn transform_with_transmuted<W, ReduceT, ReduceOp, BothOp, LeftOp, RightOp>(
        &self,
        right: &HashTrieMap<K, W, M>,
        reduce_op: ReduceOp,
        both_op: MapTransform<ReduceT, BothOp>,
        left_op: MapTransform<ReduceT, LeftOp>,
        right_op: MapTransmute<ReduceT, RightOp>,
        par_strat: ParallelismStrategy,
    ) -> (r: (Self, ReduceT)) where
        ReduceT: Clone + Default,
        ReduceOp: Fn(&ReduceT, &ReduceT) -> ReduceT,
        BothOp: Fn(&K, &V, &K, &W) -> MapTransformResult<V, ReduceT>,
        LeftOp: Fn(&K, &V) -> MapTransformResult<V, ReduceT>,
        RightOp: Fn(&K, &W) -> MapTransmuteResult<K, V, ReduceT>,

        requires
            transform_with_transmuted_accepts(both_op, left_op, right_op, self@, right@),
            transform_with_transmuted_keeps_places::<K, V, W, ReduceT, RightOp, M>(right_op, self@, right@),
            reduces_all(reduce_op),
            self@.dom().union(right@.dom()).len() <= usize::MAX,
        ensures
            transform_with_transmuted_map(both_op, left_op, right_op, self@, right@, r.0@),
            transform_transmute_reduced(reduce_op, both_op, left_op, right_op, self@, right@, r.1),
    {
        let (set, reduced) = self.set.transform_with_transmuted(&right.set, &reduce_op, &both_op, &left_op, &right_op);
        (HashTrieMap { set }, reduced)
    }

    /// Run a transmute/transform operation on each entry or pair of entries in the maps. Returns the transmuted map and a reduction of the secondary returns of the transmute operations. Can reuse nodes from the transformed map.
    ///
    /// Both maps are keyed by `K`. An entry of the left map alone takes the
    /// place of the entry it comes from, so its new key must hash as the old
    /// one, must not be a key of the right map, and distinct keys must give
    /// distinct new keys. The entries are visited one after another on the
    /// calling thread, whatever the strategy.
    pub fn transmute_with_transformed<W, ReduceT, ReduceOp, BothOp, LeftOp, RightOp>(
        &self,
        right: &HashTrieMap<K, W, M>,
        reduce_op: ReduceOp,
        both_op: MapTransform<ReduceT, BothOp>,
        left_op: MapTransmute<ReduceT, LeftOp>,
        right_op: MapTransform<ReduceT, RightOp>,
        par_strat: ParallelismStrategy,
    ) -> (r: (HashTrieMap<K, W, M>, ReduceT)) where
        ReduceT: Clone + Default,
        ReduceOp: Fn(&ReduceT, &ReduceT) -> ReduceT,
        BothOp: Fn(&K, &V, &K, &W) -> MapTransformResult<W, ReduceT>,
        LeftOp: Fn(&K, &V) -> MapTransmuteResult<K, W, ReduceT>,
        RightOp: Fn(&K, &W) -> MapTransformResult<W, ReduceT>,

        requires
            transmute_with_transformed_accepts(both_op, left_op, right_op, self@, right@),
            transmute_with_transformed_keeps_places::<K, V, W, ReduceT, LeftOp, M>(left_op, self@, right@),
            reduces_all(reduce_op),
            self@.dom().union(right@.dom()).len() <= usize::MAX,
        ensures
            transmute_with_transformed_map(both_op, left_op, right_op, self@, right@, r.0@),
            transmute_transform_reduced(reduce_op, both_op, left_op, right_op, self@, right@, r.1),
    {
        let (set, reduced) = self.set.transmute_with_transformed(&right.set, &reduce_op, &both_op, &left_op, &right_op);
        (HashTrieMap { set }, reduced)
    }

    /// Run a transmute operation on each entry or pair of entries in the maps. Returns the transmuted map and a reduction of the secondary returns of the transmute operations.
    ///
    /// Both maps are keyed by `K`. Each new entry takes the place of the entry
    /// or entries it comes from, so each new key must hash as the key it comes
    /// from, and distinct keys must give distinct new keys.
    pub fn transmute_with_transmuted<W, S: Key, X, ReduceT, ReduceOp, BothOp, LeftOp, RightOp>(
        &self,
        right: &HashTrieMap<K, W, M>,
        reduce_op: ReduceOp,
        both_op: MapTransmute<ReduceT, BothOp>,
        left_op: MapTransmute<ReduceT, LeftOp>,
        right_op: MapTransmute<ReduceT, RightOp>,
    ) -> (r: (HashTrieMap<S, X, M>, ReduceT)) where
        ReduceT: Clone + Default,
        ReduceOp: Fn(&ReduceT, &ReduceT) -> ReduceT,
        BothOp: Fn(&K, &V, &K, &W) -> MapTransmuteResult<S, X, ReduceT>,
        LeftOp: Fn(&K, &V) -> MapTransmuteResult<S, X, ReduceT>,
        RightOp: Fn(&K, &W) -> MapTransmuteResult<S, X, ReduceT>,
        M: HasherBv<u64, S>,

        requires
            transmute_with_transmuted_accepts(both_op, left_op, right_op, self@, right@),
            transmute_with_transmuted_keeps_places::<K, V, W, S, X, ReduceT, BothOp, LeftOp, RightOp, M>(
                both_op,
                left_op,
                right_op,
                self@,
                right@,
            ),
            reduces_all(reduce_op),
            self@.dom().union(right@.dom()).len() <= usize::MAX,
        ensures
            transmute_with_transmuted_map(both_op, left_op, right_op, self@, right@, r.0@),
            joint_transmute_reduced(reduce_op, both_op, left_op, right_op, self@, right@, r.1),
    {
        let (set, reduced) = self.set.transmute_with_transmuted(&right.set, &reduce_op, &both_op, &left_op, &right_op);
        (HashTrieMap { set }, reduced)
    }
}

/// Finding a key in the map that an insertion gave yields the value inserted,
/// and every other key as before.
pub proof fn law_find_after_insert<K: Key, V, M: HasherBv<u64, K>>(m: HashTrieMap<K, V, M>, k: K, v: V, j: K)
    ensures
        m@.insert(k, v).contains_key(k),
        m@.insert(k, v)[k] == v,
        j != k ==> m@.insert(k, v).get(j) == m@.get(j),
{
}

/// Finding a key in the map that a removal gave yields nothing, and every
/// other key as before.
pub proof fn law_find_after_remove<K: Key, V, M: HasherBv<u64, K>>(m: HashTrieMap<K, V, M>, k: K, j: K)
    ensures
        !m@.remove(k).contains_key(k),
        j != k ==> m@.remove(k).get(j) == m@.get(j),
{
}

/// Removing a key that an insertion added gives back the map from before.
pub proof fn law_remove_undoes_insert<K: Key, V, M: HasherBv<u64, K>>(m: HashTrieMap<K, V, M>, k: K, v: V)
    requires
        !m@.contains_key(k),
    ensures
        m@.insert(k, v).remove(k) == m@,
{
    assert(m@.insert(k, v).remove(k) =~= m@);
}

/// Inserting a removed entry again gives back the map from before.
pub proof fn law_insert_undoes_remove<K: Key, V, M: HasherBv<u64, K>>(m: HashTrieMap<K, V, M>, k: K)
    requires
        m@.contains_key(k),
    ensures
        m@.remove(k).insert(k, m@[k]) == m@,
{
    assert(m@.remove(k).insert(k, m@[k]) =~= m@);
}

/// An insertion adds one entry for a new key and none for a key present; a
/// removal takes one away.
pub proof fn law_size<K: Key, V, M: HasherBv<u64, K>>(m: HashTrieMap<K, V, M>, k: K, v: V)
    requires
        m@.dom().finite(),
    ensures
        !m@.contains_key(k) ==> m@.insert(k, v).len() == m@.len() + 1,
        m@.contains_key(k) ==> m@.insert(k, v).len() == m@.len(),
        m@.contains_key(k) ==> m@.remove(k).len() + 1 == m@.len(),
{
    if m@.contains_key(k) {
        assert(m@.insert(k, v).dom() =~= m@.dom());
    }
}

/// A transformation keeps no key that the map did not hold, so the map it
/// gives is no larger.
pub proof fn law_transform_keeps_keys<K, V, R, F: Fn(&K, &V) -> MapTransformResult<V, R>>(
    op: MapTransform<R, F>,
    m: Map<K, V>,
    n: Map<K, V>,
)
    requires
        m.dom().finite(),
        transformed_map(op, m, n),
    ensures
        n.dom().subset_of(m.dom()),
        n.dom().finite(),
        n.len() <= m.len(),
{
    assert forall|k: K| n.dom().contains(k) implies m.dom().contains(k) by {
        assert(transformed_entry(op, k, m.get(k), n.get(k)));
    }
    vstd::set_lib::lemma_len_subset(n.dom(), m.dom());
}

/// The identity transformation gives back the map, and the null one the empty map.
pub proof fn law_transform_unchanged_removed<K, V, R, F: Fn(&K, &V) -> MapTransformResult<V, R>>(
    r: R,
    m: Map<K, V>,
    n: Map<K, V>,
)
    ensures
        transformed_map(MapTransform::<R, F>::Unchanged(r), m, n) ==> n == m,
        transformed_map(MapTransform::<R, F>::Removed(r), m, n) ==> n == Map::<K, V>::empty(),
{
    if transformed_map(MapTransform::<R, F>::Unchanged(r), m, n) {
        assert forall|k: K| #[trigger] n.dom().contains(k) == m.dom().contains(k) && (n.dom().contains(k) ==> n[k] == m[k]) by {
            assert(transformed_entry(MapTransform::<R, F>::Unchanged(r), k, m.get(k), n.get(k)));
        }
        assert(n =~= m);
    }
    if transformed_map(MapTransform::<R, F>::Removed(r), m, n) {
        assert forall|k: K| !#[trigger] n.dom().contains(k) by {
            assert(transformed_entry(MapTransform::<R, F>::Removed(r), k, m.get(k), n.get(k)));
        }
        assert(n =~= Map::<K, V>::empty());
    }
}

/// The null transmutation gives the empty map.
pub proof fn law_transmute_removed<K, V, S, X, R, F: Fn(&K, &V) -> MapTransmuteResult<S, X, R>>(
    r: R,
    m: Map<K, V>,
    n: Map<S, X>,
)
    requires
        transmuted_map(MapTransmute::<R, F>::Removed(r), m, n),
    ensures
        n == Map::<S, X>::empty(),
{
    let outs = choose|outcomes: Map<K, MapTransmuteResult<S, X, R>>|
        #![trigger transmuted_by(m, outcomes, n)]
        transmuted_by(m, outcomes, n) && forall|k: K| #[trigger]
            m.dom().contains(k) ==> MapTransmute::<R, F>::Removed(r).gives(k, m[k], outcomes[k]);
    assert forall|s: S| !#[trigger] n.dom().contains(s) by {
        if n.dom().contains(s) {
            let k = choose|k: K| #[trigger]
                outs.dom().contains(k) && outs[k].new_entry() is Some && outs[k].new_entry()->Some_0.0 == s;
            assert(MapTransmute::<R, F>::Removed(r).gives(k, m[k], outs[k]));
        }
    }
    assert(n =~= Map::<S, X>::empty());
}

/// A transmutation whose every result keeps the entry gives back the map.
pub proof fn law_transmute_identity<K, V, R, F: Fn(&K, &V) -> MapTransmuteResult<K, V, R>>(
    op: MapTransmute<R, F>,
    m: Map<K, V>,
    n: Map<K, V>,
)
    requires
        forall|k: K, t: MapTransmuteResult<K, V, R>| #[trigger] op.gives(k, m[k], t) ==> t.new_entry() == Some((k, m[k])),
        transmuted_map(op, m, n),
    ensures
        n == m,
{
    let outs = choose|outcomes: Map<K, MapTransmuteResult<K, V, R>>|
        #![trigger transmuted_by(m, outcomes, n)]
        transmuted_by(m, outcomes, n) && forall|k: K| #[trigger] m.dom().contains(k) ==> op.gives(k, m[k], outcomes[k]);
    assert forall|k: K| #[trigger] n.dom().contains(k) == m.dom().contains(k) && (n.dom().contains(k) ==> n[k] == m[k]) by {
        if m.dom().contains(k) {
            assert(op.gives(k, m[k], outs[k]));
            assert(outs.dom().contains(k));
        }
        if n.dom().contains(k) {
            let k2 = choose|k2: K| #[trigger]
                outs.dom().contains(k2) && outs[k2].new_entry() is Some && outs[k2].new_entry()->Some_0.0 == k;
            assert(op.gives(k2, m[k2], outs[k2]));
        }
    }
    assert(n =~= m);
}

/// A joint transformation that removes the keys of both maps and keeps the
/// keys of one gives their symmetric difference.
pub proof fn law_joint_symmetric_difference<K, V, R, B, LF, RF>(r: R, a: Map<K, V>, b: Map<K, V>, c: Map<K, V>)
    where
        B: Fn(&K, &V, &K, &V) -> MapJointTransformResult<V, R>,
        LF: Fn(&K, &V) -> MapTransformResult<V, R>,
        RF: Fn(&K, &V) -> MapTransformResult<V, R>,
    requires
        joint_transformed_map(
            MapJointTransform::<R, B>::Removed(r),
            MapTransform::<R, LF>::Unchanged(r),
            MapTransform::<R, RF>::Unchanged(r),
            a,
            b,
            c,
        ),
    ensures
        c.dom() == a.dom().difference(b.dom()).union(b.dom().difference(a.dom())),
        forall|k: K| #[trigger] c.dom().contains(k) ==> c[k] == if a.dom().contains(k) { a[k] } else { b[k] },
{
    assert forall|k: K| #[trigger] c.dom().contains(k) == a.dom().difference(b.dom()).union(b.dom().difference(a.dom())).contains(k)
        && (c.dom().contains(k) ==> c[k] == if a.dom().contains(k) { a[k] } else { b[k] }) by {
        assert(joint_transformed_entry(
            MapJointTransform::<R, B>::Removed(r),
            MapTransform::<R, LF>::Unchanged(r),
            MapTransform::<R, RF>::Unchanged(r),
            k,
            a.get(k),
            b.get(k),
            c.get(k),
        ));
    }
    assert(c.dom() =~= a.dom().difference(b.dom()).union(b.dom().difference(a.dom())));
}

/// A joint transformation that keeps the left value of the keys of both maps
/// and keeps the keys of one gives their union, the left map winning.
pub proof fn law_joint_union<K, V, R, B, LF, RF>(r: R, a: Map<K, V>, b: Map<K, V>, c: Map<K, V>)
    where
        B: Fn(&K, &V, &K, &V) -> MapJointTransformResult<V, R>,
        LF: Fn(&K, &V) -> MapTransformResult<V, R>,
        RF: Fn(&K, &V) -> MapTransformResult<V, R>,
    requires
        joint_transformed_map(
            MapJointTransform::<R, B>::UnchangedL(r),
            MapTransform::<R, LF>::Unchanged(r),
            MapTransform::<R, RF>::Unchanged(r),
            a,
            b,
            c,
        ),
    ensures
        c == b.union_prefer_right(a),
{
    assert forall|k: K| #[trigger] c.dom().contains(k) == b.union_prefer_right(a).dom().contains(k) && (c.dom().contains(k)
        ==> c[k] == b.union_prefer_right(a)[k]) by {
        assert(joint_transformed_entry(
            MapJointTransform::<R, B>::UnchangedL(r),
            MapTransform::<R, LF>::Unchanged(r),
            MapTransform::<R, RF>::Unchanged(r),
            k,
            a.get(k),
            b.get(k),
            c.get(k),
        ));
    }
    assert(c =~= b.union_prefer_right(a));
}

/// A joint transformation that keeps the keys of both maps and removes the keys
/// of one gives their intersection, with either side's value.
pub proof fn law_joint_intersection<K, V, R, B, LF, RF>(r: R, a: Map<K, V>, b: Map<K, V>, c: Map<K, V>)
    where
        B: Fn(&K, &V, &K, &V) -> MapJointTransformResult<V, R>,
        LF: Fn(&K, &V) -> MapTransformResult<V, R>,
        RF: Fn(&K, &V) -> MapTransformResult<V, R>,
    requires
        joint_transformed_map(
            MapJointTransform::<R, B>::UnchangedLR(r),
            MapTransform::<R, LF>::Removed(r),
            MapTransform::<R, RF>::Removed(r),
            a,
            b,
            c,
        ),
    ensures
        c.dom() == a.dom().intersect(b.dom()),
        forall|k: K| #[trigger] c.dom().contains(k) ==> c[k] == a[k] || c[k] == b[k],
{
    assert forall|k: K| #[trigger] c.dom().contains(k) == a.dom().intersect(b.dom()).contains(k) && (c.dom().contains(k)
        ==> c[k] == a[k] || c[k] == b[k]) by {
        assert(joint_transformed_entry(
            MapJointTransform::<R, B>::UnchangedLR(r),
            MapTransform::<R, LF>::Removed(r),
            MapTransform::<R, RF>::Removed(r),
            k,
            a.get(k),
            b.get(k),
            c.get(k),
        ));
    }
    assert(c.dom() =~= a.dom().intersect(b.dom()));
}

/// `transform_with_transfuted` keeps keys as they are: the map it gives holds
/// no key that neither map holds, and each key that it holds has the value
/// that the operation run on it gave.
pub proof fn law_transfuted_keys<K, V, W, R, B, LF, RF>(
    both_op: MapTransform<R, B>,
    left_op: MapTransform<R, LF>,
    right_op: SetTransmute<R, RF>,
    a: Map<K, V>,
    b: Map<K, W>,
    c: Map<K, V>,
) where
    B: Fn(&K, &V, &K, &W) -> MapTransformResult<V, R>,
    LF: Fn(&K, &V) -> MapTransformResult<V, R>,
    RF: Fn(&K, &W) -> SetTransmuteResult<V, R>,

    requires
        transform_with_transfuted_map(both_op, left_op, right_op, a, b, c),
    ensures
        c.dom().subset_of(a.dom().union(b.dom())),
        forall|k: K| #[trigger] c.dom().contains(k) && !a.dom().contains(k) ==> exists|t: SetTransmuteResult<V, R>|
            #[trigger] right_op.gives_entry(k, b[k], t) && t.value() == Some(c[k]),
{
    assert forall|k: K| #[trigger] c.dom().contains(k) implies a.dom().union(b.dom()).contains(k) by {
        assert(transform_with_transfuted_entry(both_op, left_op, right_op, k, a.get(k), b.get(k), c.get(k)));
    }
    assert forall|k: K| #[trigger] c.dom().contains(k) && !a.dom().contains(k) implies exists|t: SetTransmuteResult<V, R>|
        #[trigger] right_op.gives_entry(k, b[k], t) && t.value() == Some(c[k]) by {
        assert(transform_with_transfuted_entry(both_op, left_op, right_op, k, a.get(k), b.get(k), c.get(k)));
    }
}

/// `transform_with_transfuted` that leaves the values of the left map as they
/// are and removes the entries of the right map alone gives the left map back.
pub proof fn law_transfuted_keeps_left<K, V, W, R, B, LF, RF>(r: R, a: Map<K, V>, b: Map<K, W>, c: Map<K, V>)
    where
        B: Fn(&K, &V, &K, &W) -> MapTransformResult<V, R>,
        LF: Fn(&K, &V) -> MapTransformResult<V, R>,
        RF: Fn(&K, &W) -> SetTransmuteResult<V, R>,
    requires
        transform_with_transfuted_map(
            MapTransform::<R, B>::Unchanged(r),
            MapTransform::<R, LF>::Unchanged(r),
            SetTransmute::<R, RF>::Removed(r),
            a,
            b,
            c,
        ),
    ensures
        c == a,
{
    assert forall|k: K| #[trigger] c.dom().contains(k) == a.dom().contains(k) && (c.dom().contains(k) ==> c[k] == a[k]) by {
        assert(transform_with_transfuted_entry(
            MapTransform::<R, B>::Unchanged(r),
            MapTransform::<R, LF>::Unchanged(r),
            SetTransmute::<R, RF>::Removed(r),
            k,
            a.get(k),
            b.get(k),
            c.get(k),
        ));
    }
    assert(c =~= a);
}

/// `transfute_with_transformed` keeps keys as they are: the map it gives holds
/// no key that neither map holds, and each key of the left map alone that it
/// holds has the value that the transmutation gave.
pub proof fn law_transfute_keys<K, V, W, R, B, LF, RF>(
    both_op: MapTransform<R, B>,
    left_op: SetTransmute<R, LF>,
    right_op: MapTransform<R, RF>,
    a: Map<K, V>,
    b: Map<K, W>,
    c: Map<K, W>,
) where
    B: Fn(&K, &V, &K, &W) -> MapTransformResult<W, R>,
    LF: Fn(&K, &V) -> SetTransmuteResult<W, R>,
    RF: Fn(&K, &W) -> MapTransformResult<W, R>,

    requires
        transfute_with_transformed_map(both_op, left_op, right_op, a, b, c),
    ensures
        c.dom().subset_of(a.dom().union(b.dom())),
        forall|k: K| #[trigger] c.dom().contains(k) && !b.dom().contains(k) ==> exists|t: SetTransmuteResult<W, R>|
            #[trigger] left_op.gives_entry(k, a[k], t) && t.value() == Some(c[k]),
{
    assert forall|k: K| #[trigger] c.dom().contains(k) implies a.dom().union(b.dom()).contains(k) by {
        assert(transfute_with_transformed_entry(both_op, left_op, right_op, k, a.get(k), b.get(k), c.get(k)));
    }
    assert forall|k: K| #[trigger] c.dom().contains(k) && !b.dom().contains(k) implies exists|t: SetTransmuteResult<W, R>|
        #[trigger] left_op.gives_entry(k, a[k], t) && t.value() == Some(c[k]) by {
        assert(transfute_with_transformed_entry(both_op, left_op, right_op, k, a.get(k), b.get(k), c.get(k)));
    }
}

/// `transfute_with_transformed` that leaves the values of the right map as they
/// are and removes the entries of the left map alone gives the right map back.
pub proof fn law_transfute_keeps_right<K, V, W, R, B, LF, RF>(r: R, a: Map<K, V>, b: Map<K, W>, c: Map<K, W>)
    where
        B: Fn(&K, &V, &K, &W) -> MapTransformResult<W, R>,
        LF: Fn(&K, &V) -> SetTransmuteResult<W, R>,
        RF: Fn(&K, &W) -> MapTransformResult<W, R>,
    requires
        transfute_with_transformed_map(
            MapTransform::<R, B>::Unchanged(r),
            SetTransmute::<R, LF>::Removed(r),
            MapTransform::<R, RF>::Unchanged(r),
            a,
            b,
            c,
        ),
    ensures
        c == b,
{
    assert forall|k: K| #[trigger] c.dom().contains(k) == b.dom().contains(k) && (c.dom().contains(k) ==> c[k] == b[k]) by {
        assert(transfute_with_transformed_entry(
            MapTransform::<R, B>::Unchanged(r),
            SetTransmute::<R, LF>::Removed(r),
            MapTransform::<R, RF>::Unchanged(r),
            k,
            a.get(k),
            b.get(k),
            c.get(k),
        ));
    }
    assert(c =~= b);
}

/// `transmute_with_transmuted` whose operations all remove gives the empty map.
pub proof fn law_joint_transmute_removed<K, V, W, S, X, R, B, LF, RF>(r: R, a: Map<K, V>, b: Map<K, W>, c: Map<S, X>)
    where
        B: Fn(&K, &V, &K, &W) -> MapTransmuteResult<S, X, R>,
        LF: Fn(&K, &V) -> MapTransmuteResult<S, X, R>,
        RF: Fn(&K, &W) -> MapTransmuteResult<S, X, R>,
    requires
        transmute_with_transmuted_map(
            MapTransmute::<R, B>::Removed(r),
            MapTransmute::<R, LF>::Removed(r),
            MapTransmute::<R, RF>::Removed(r),
            a,
            b,
            c,
        ),
    ensures
        c == Map::<S, X>::empty(),
{
    let outs = choose|outcomes: Map<K, MapTransmuteResult<S, X, R>>|
        #![trigger joint_transmuted_by(a, b, outcomes, c)]
        joint_transmuted_by(a, b, outcomes, c) && forall|k: K| #[trigger]
            outcomes.dom().contains(k) ==> joint_transmute_gives(
                MapTransmute::<R, B>::Removed(r),
                MapTransmute::<R, LF>::Removed(r),
                MapTransmute::<R, RF>::Removed(r),
                k,
                a.get(k),
                b.get(k),
                outcomes[k],
            );
    assert forall|s: S| !#[trigger] c.dom().contains(s) by {
        if c.dom().contains(s) {
            let k = choose|k: K| #[trigger]
                outs.dom().contains(k) && outs[k].new_entry() is Some && outs[k].new_entry()->Some_0.0 == s;
            assert(joint_transmute_gives(
                MapTransmute::<R, B>::Removed(r),
                MapTransmute::<R, LF>::Removed(r),
                MapTransmute::<R, RF>::Removed(r),
                k,
                a.get(k),
                b.get(k),
                outs[k],
            ));
        }
    }
    assert(c =~= Map::<S, X>::empty());
}

/// `transmute_with_transmuted` that removes the keys of both maps and keeps
/// the entries of one as they are gives their symmetric difference.
pub proof fn law_joint_transmute_symmetric_difference<K, V, R, B, LF, RF>(
    r: R,
    left_op: MapTransmute<R, LF>,
    right_op: MapTransmute<R, RF>,
    a: Map<K, V>,
    b: Map<K, V>,
    c: Map<K, V>,
) where
    B: Fn(&K, &V, &K, &V) -> MapTransmuteResult<K, V, R>,
    LF: Fn(&K, &V) -> MapTransmuteResult<K, V, R>,
    RF: Fn(&K, &V) -> MapTransmuteResult<K, V, R>,

    requires
        forall|k: K, t: MapTransmuteResult<K, V, R>| #[trigger] left_op.gives(k, a[k], t) ==> t.new_entry() == Some((k, a[k])),
        forall|k: K, t: MapTransmuteResult<K, V, R>| #[trigger] right_op.gives(k, b[k], t) ==> t.new_entry() == Some((k, b[k])),
        transmute_with_transmuted_map(MapTransmute::<R, B>::Removed(r), left_op, right_op, a, b, c),
    ensures
        c.dom() == a.dom().difference(b.dom()).union(b.dom().difference(a.dom())),
        forall|k: K| #[trigger] c.dom().contains(k) ==> c[k] == if a.dom().contains(k) { a[k] } else { b[k] },
{
    let outs = choose|outcomes: Map<K, MapTransmuteResult<K, V, R>>|
        #![trigger joint_transmuted_by(a, b, outcomes, c)]
        joint_transmuted_by(a, b, outcomes, c) && forall|k: K| #[trigger]
            outcomes.dom().contains(k) ==> joint_transmute_gives(
                MapTransmute::<R, B>::Removed(r),
                left_op,
                right_op,
                k,
                a.get(k),
                b.get(k),
                outcomes[k],
            );
    assert forall|k: K| #[trigger] c.dom().contains(k) == a.dom().difference(b.dom()).union(b.dom().difference(a.dom())).contains(k)
        && (c.dom().contains(k) ==> c[k] == if a.dom().contains(k) { a[k] } else { b[k] }) by {
        if a.dom().contains(k) || b.dom().contains(k) {
            assert(outs.dom().contains(k));
            assert(joint_transmute_gives(MapTransmute::<R, B>::Removed(r), left_op, right_op, k, a.get(k), b.get(k), outs[k]));
        }
        if c.dom().contains(k) {
            let k2 = choose|k2: K| #[trigger]
                outs.dom().contains(k2) && outs[k2].new_entry() is Some && outs[k2].new_entry()->Some_0.0 == k;
            assert(joint_transmute_gives(MapTransmute::<R, B>::Removed(r), left_op, right_op, k2, a.get(k2), b.get(k2), outs[k2]));
        }
    }
    assert(c.dom() =~= a.dom().difference(b.dom()).union(b.dom().difference(a.dom())));
}


/// `transform_with_transmuted` gives no key that is neither a key of the left
/// map nor the new key of an entry of the right map alone.
pub proof fn law_transform_transmuted_keys<K, V, W, R, B, LF, RF>(
    both_op: MapTransform<R, B>,
    left_op: MapTransform<R, LF>,
    right_op: MapTransmute<R, RF>,
    a: Map<K, V>,
    b: Map<K, W>,
    c: Map<K, V>,
) where
    B: Fn(&K, &V, &K, &W) -> MapTransformResult<V, R>,
    LF: Fn(&K, &V) -> MapTransformResult<V, R>,
    RF: Fn(&K, &W) -> MapTransmuteResult<K, V, R>,

    requires
        transform_with_transmuted_map(both_op, left_op, right_op, a, b, c),
    ensures
        forall|s: K| #[trigger] c.dom().contains(s) && !a.dom().contains(s) ==> exists|k: K, t: MapTransmuteResult<K, V, R>|
            #![trigger right_op.gives(k, b[k], t)]
            b.dom().contains(k) && !a.dom().contains(k) && right_op.gives(k, b[k], t) && t.new_entry() == Some((s, c[s])),
{
    let outs = choose|outcomes: Map<K, MapTransmuteResult<K, V, R>>|
        #![trigger transform_with_transmuted_by(both_op, left_op, right_op, a, b, outcomes, c)]
        transform_with_transmuted_by(both_op, left_op, right_op, a, b, outcomes, c);
    assert forall|s: K| #[trigger] c.dom().contains(s) && !a.dom().contains(s) implies exists|k: K, t: MapTransmuteResult<K, V, R>|
        #![trigger right_op.gives(k, b[k], t)]
        b.dom().contains(k) && !a.dom().contains(k) && right_op.gives(k, b[k], t) && t.new_entry() == Some((s, c[s])) by {
        let k = choose|k: K| #[trigger]
            outs.dom().contains(k) && outs[k].new_entry() is Some && outs[k].new_entry()->Some_0.0 == s;
        assert(outs.dom().contains(k));
        assert(right_op.gives(k, b[k], outs[k]));
    }
}

/// `transform_with_transmuted` that leaves the values of the left map as they
/// are and removes the entries of the right map alone gives the left map back.
pub proof fn law_transform_transmuted_keeps_left<K, V, W, R, B, LF, RF>(r: R, a: Map<K, V>, b: Map<K, W>, c: Map<K, V>)
    where
        B: Fn(&K, &V, &K, &W) -> MapTransformResult<V, R>,
        LF: Fn(&K, &V) -> MapTransformResult<V, R>,
        RF: Fn(&K, &W) -> MapTransmuteResult<K, V, R>,
    requires
        transform_with_transmuted_map(
            MapTransform::<R, B>::Unchanged(r),
            MapTransform::<R, LF>::Unchanged(r),
            MapTransmute::<R, RF>::Removed(r),
            a,
            b,
            c,
        ),
    ensures
        c == a,
{
    let both_op = MapTransform::<R, B>::Unchanged(r);
    let left_op = MapTransform::<R, LF>::Unchanged(r);
    let right_op = MapTransmute::<R, RF>::Removed(r);
    let outs = choose|outcomes: Map<K, MapTransmuteResult<K, V, R>>|
        #![trigger transform_with_transmuted_by(both_op, left_op, right_op, a, b, outcomes, c)]
        transform_with_transmuted_by(both_op, left_op, right_op, a, b, outcomes, c);
    assert forall|k: K| #[trigger] c.dom().contains(k) == a.dom().contains(k) && (c.dom().contains(k) ==> c[k] == a[k]) by {
        if a.dom().contains(k) {
            assert(transform_with_transmuted_left_entry(both_op, left_op, k, a[k], b.get(k), c.get(k)));
        } else if c.dom().contains(k) {
            let j = choose|j: K| #[trigger]
                outs.dom().contains(j) && outs[j].new_entry() is Some && outs[j].new_entry()->Some_0.0 == k;
            assert(right_op.gives(j, b[j], outs[j]));
        }
    }
    assert(c =~= a);
}

/// `transmute_with_transformed` gives no key that is neither a key of the right
/// map nor the new key of an entry of the left map alone.
pub proof fn law_transmute_transformed_keys<K, V, W, R, B, LF, RF>(
    both_op: MapTransform<R, B>,
    left_op: MapTransmute<R, LF>,
    right_op: MapTransform<R, RF>,
    a: Map<K, V>,
    b: Map<K, W>,
    c: Map<K, W>,
) where
    B: Fn(&K, &V, &K, &W) -> MapTransformResult<W, R>,
    LF: Fn(&K, &V) -> MapTransmuteResult<K, W, R>,
    RF: Fn(&K, &W) -> MapTransformResult<W, R>,

    requires
        transmute_with_transformed_map(both_op, left_op, right_op, a, b, c),
    ensures
        forall|s: K| #[trigger] c.dom().contains(s) && !b.dom().contains(s) ==> exists|k: K, t: MapTransmuteResult<K, W, R>|
            #![trigger left_op.gives(k, a[k], t)]
            a.dom().contains(k) && !b.dom().contains(k) && left_op.gives(k, a[k], t) && t.new_entry() == Some((s, c[s])),
{
    let outs = choose|outcomes: Map<K, MapTransmuteResult<K, W, R>>|
        #![trigger transmute_with_transformed_by(both_op, left_op, right_op, a, b, outcomes, c)]
        transmute_with_transformed_by(both_op, left_op, right_op, a, b, outcomes, c);
    assert forall|s: K| #[trigger] c.dom().contains(s) && !b.dom().contains(s) implies exists|k: K, t: MapTransmuteResult<K, W, R>|
        #![trigger left_op.gives(k, a[k], t)]
        a.dom().contains(k) && !b.dom().contains(k) && left_op.gives(k, a[k], t) && t.new_entry() == Some((s, c[s])) by {
        let k = choose|k: K| #[trigger]
            outs.dom().contains(k) && outs[k].new_entry() is Some && outs[k].new_entry()->Some_0.0 == s;
        assert(outs.dom().contains(k));
        assert(left_op.gives(k, a[k], outs[k]));
    }
}

/// `transmute_with_transformed` that leaves the values of the right map as
/// they are and removes the entries of the left map alone gives the right map
/// back.
pub proof fn law_transmute_transformed_keeps_right<K, V, W, R, B, LF, RF>(r: R, a: Map<K, V>, b: Map<K, W>, c: Map<K, W>)
    where
        B: Fn(&K, &V, &K, &W) -> MapTransformResult<W, R>,
        LF: Fn(&K, &V) -> MapTransmuteResult<K, W, R>,
        RF: Fn(&K, &W) -> MapTransformResult<W, R>,
    requires
        transmute_with_transformed_map(
            MapTransform::<R, B>::Unchanged(r),
            MapTransmute::<R, LF>::Removed(r),
            MapTransform::<R, RF>::Unchanged(r),
            a,
            b,
            c,
        ),
    ensures
        c == b,
{
    let both_op = MapTransform::<R, B>::Unchanged(r);
    let left_op = MapTransmute::<R, LF>::Removed(r);
    let right_op = MapTransform::<R, RF>::Unchanged(r);
    let outs = choose|outcomes: Map<K, MapTransmuteResult<K, W, R>>|
        #![trigger transmute_with_transformed_by(both_op, left_op, right_op, a, b, outcomes, c)]
        transmute_with_transformed_by(both_op, left_op, right_op, a, b, outcomes, c);
    assert forall|k: K| #[trigger] c.dom().contains(k) == b.dom().contains(k) && (c.dom().contains(k) ==> c[k] == b[k]) by {
        if b.dom().contains(k) {
            assert(transmute_with_transformed_right_entry(both_op, right_op, k, b[k], a.get(k), c.get(k)));
        } else if c.dom().contains(k) {
            let j = choose|j: K| #[trigger]
                outs.dom().contains(j) && outs[j].new_entry() is Some && outs[j].new_entry()->Some_0.0 == k;
            assert(left_op.gives(j, a[j], outs[j]));
        }
    }
    assert(c =~= b);
}

/// A generic transformation whose every result carries 1, reduced by
/// addition from the default 0, counts the entries of the map.
pub proof fn law_transform_reduction_counts<K, V, RO, F>(reduce_op: RO, f: F, m: Map<K, V>, r: u64) where
    RO: Fn(&u64, &u64) -> u64,
    F: Fn(&K, &V) -> MapTransformResult<V, u64>,

    requires
        m.dom().finite(),
        transform_reduced(reduce_op, MapTransform::<u64, F>::Generic(f), m, r),
        forall|k: &K, v: &V, res: MapTransformResult<V, u64>| #[trigger] f.ensures((k, v), res) ==> res.reduced() == 1,
        forall|a: &u64, b: &u64, c: u64| #[trigger] reduce_op.ensures((a, b), c) ==> c == *a + *b,
    ensures
        r == m.len(),
{
    let op = MapTransform::<u64, F>::Generic(f);
    let t = choose|t: Reduction<K, u64>|
        #![trigger t.combines(reduce_op)]
        reduction_fits(t, reduce_op, m.dom(), transform_entries_ok(op, m), transform_others_ok(op))
            && t.value() == r;
    assert forall|i: int| 0 <= i < t.entries().len() implies #[trigger] t.entries()[i].1 == 1 by {
        let (k, y) = t.entries()[i];
        assert(transform_entries_ok(op, m)(k, y));
        let res = choose|res: MapTransformResult<V, u64>| #[trigger] f.ensures((&k, &m[k]), res) && res.reduced() == y;
    }
    assert forall|i: int| 0 <= i < t.others().len() implies #[trigger] t.others()[i] == 0 by {
        assert(transform_others_ok(op)(t.others()[i]));
    }
    lemma_reduction_len(t, reduce_op, m.dom(), transform_entries_ok(op, m), transform_others_ok(op));
    lemma_reduction_counts(t, reduce_op);
}

/// A transformation's reduced value is made of exactly one secondary value
/// for each entry of the map, whether the operation is generic or constant:
/// the one that the operation gave on the entry, besides default values.
pub proof fn law_transform_reduction_per_entry<K, V, R: Clone + Default, RO, F>(
    reduce_op: RO,
    op: MapTransform<R, F>,
    m: Map<K, V>,
    r: R,
) where RO: Fn(&R, &R) -> R, F: Fn(&K, &V) -> MapTransformResult<V, R>
    requires
        m.dom().finite(),
        transform_reduced(reduce_op, op, m, r),
    ensures
        exists|t: Reduction<K, R>|
            #![trigger t.combines(reduce_op)]
            {
                &&& t.combines(reduce_op)
                &&& t.value() == r
                &&& t.entries().len() == m.len()
                &&& reduced_keys(t.entries()).no_duplicates()
                &&& forall|i: int| #![trigger t.entries()[i]]
                    0 <= i < t.entries().len() ==> m.dom().contains(t.entries()[i].0) && transform_entry_reduced(
                        op,
                        t.entries()[i].0,
                        m[t.entries()[i].0],
                        t.entries()[i].1,
                    )
                &&& forall|i: int| 0 <= i < t.others().len() ==> call_ensures(R::default, (), #[trigger] t.others()[i])
            },
{
    let t = choose|t: Reduction<K, R>|
        #![trigger t.combines(reduce_op)]
        reduction_fits(t, reduce_op, m.dom(), transform_entries_ok(op, m), transform_others_ok(op)) && t.value() == r;
    lemma_reduction_len(t, reduce_op, m.dom(), transform_entries_ok(op, m), transform_others_ok(op));
    assert forall|i: int| 0 <= i < t.others().len() implies call_ensures(R::default, (), #[trigger] t.others()[i]) by {
        assert(transform_others_ok(op)(t.others()[i]));
    }
}

/// A joint transformation's reduced value is made of exactly one secondary
/// value for each key of either map, whether the operations are generic or
/// constant: the one that the operation for the key's place gave, besides
/// default values.
pub proof fn law_joint_reduction_per_key<K, V, R: Clone + Default, RO, B, LF, RF>(
    reduce_op: RO,
    both_op: MapJointTransform<R, B>,
    left_op: MapTransform<R, LF>,
    right_op: MapTransform<R, RF>,
    a: Map<K, V>,
    b: Map<K, V>,
    r: R,
) where
    RO: Fn(&R, &R) -> R,
    B: Fn(&K, &V, &K, &V) -> MapJointTransformResult<V, R>,
    LF: Fn(&K, &V) -> MapTransformResult<V, R>,
    RF: Fn(&K, &V) -> MapTransformResult<V, R>,

    requires
        a.dom().finite(),
        b.dom().finite(),
        joint_reduced(reduce_op, both_op, left_op, right_op, a, b, r),
    ensures
        exists|t: Reduction<K, R>|
            #![trigger t.combines(reduce_op)]
            {
                &&& t.combines(reduce_op)
                &&& t.value() == r
                &&& t.entries().len() == a.dom().union(b.dom()).len()
                &&& reduced_keys(t.entries()).no_duplicates()
                &&& forall|i: int| #![trigger t.entries()[i]]
                    0 <= i < t.entries().len() ==> joint_entry_reduced(
                        both_op,
                        left_op,
                        right_op,
                        t.entries()[i].0,
                        a.get(t.entries()[i].0),
                        b.get(t.entries()[i].0),
                        t.entries()[i].1,
                    )
            },
{
    let lk = |k: K| a.get(k);
    let rk = |k: K| b.get(k);
    let keys = lookup_keys(lk).union(lookup_keys(rk));
    let je = joint_entries_ok(both_op, left_op, right_op, lk, rk);
    let jo = joint_others_ok(both_op, left_op, right_op);
    let t = choose|t: Reduction<K, R>| #![trigger t.combines(reduce_op)] reduction_fits(t, reduce_op, keys, je, jo) && t.value() == r;
    assert(keys =~= a.dom().union(b.dom()));
    lemma_reduction_len(t, reduce_op, keys, je, jo);
    assert forall|i: int| #![trigger t.entries()[i]] 0 <= i < t.entries().len() implies joint_entry_reduced(
        both_op,
        left_op,
        right_op,
        t.entries()[i].0,
        a.get(t.entries()[i].0),
        b.get(t.entries()[i].0),
        t.entries()[i].1,
    ) by {
        assert(je(t.entries()[i].0, t.entries()[i].1));
    }
}

/// A reduction stated by `pair_reduced_at` (that of
/// `transform_with_transfuted`, `transfute_with_transformed`,
/// `transmute_with_transmuted`, `transform_with_transmuted` or
/// `transmute_with_transformed`) is made of exactly one value for each key of
/// either map, one that `pred` allows for the key's values, besides values
/// that `others` allows.
pub proof fn law_pair_reduction_per_key<K, V, W, R, RO: Fn(&R, &R) -> R>(
    reduce_op: RO,
    pred: spec_fn(K, Option<V>, Option<W>, R) -> bool,
    others: spec_fn(R) -> bool,
    a: Map<K, V>,
    b: Map<K, W>,
    r: R,
)
    requires
        a.dom().finite(),
        b.dom().finite(),
        pair_reduced_at(reduce_op, pred, others, |k: K| a.get(k), |k: K| b.get(k), r),
    ensures
        exists|t: Reduction<K, R>|
            #![trigger t.combines(reduce_op)]
            {
                &&& t.combines(reduce_op)
                &&& t.value() == r
                &&& t.entries().len() == a.dom().union(b.dom()).len()
                &&& reduced_keys(t.entries()).no_duplicates()
                &&& forall|i: int| #![trigger t.entries()[i]]
                    0 <= i < t.entries().len() ==> pred(
                        t.entries()[i].0,
                        a.get(t.entries()[i].0),
                        b.get(t.entries()[i].0),
                        t.entries()[i].1,
                    )
                &&& forall|i: int| 0 <= i < t.others().len() ==> others(#[trigger] t.others()[i])
            },
{
    let lk = |k: K| a.get(k);
    let rk = |k: K| b.get(k);
    let keys = lookup_keys(lk).union(lookup_keys(rk));
    let t = choose|t: Reduction<K, R>|
        #![trigger t.combines(reduce_op)]
        reduction_fits(t, reduce_op, keys, pair_entries_ok(pred, lk, rk), others) && t.value() == r;
    assert(keys =~= a.dom().union(b.dom()));
    lemma_reduction_len(t, reduce_op, keys, pair_entries_ok(pred, lk, rk), others);
    assert forall|i: int| #![trigger t.entries()[i]] 0 <= i < t.entries().len() implies pred(
        t.entries()[i].0,
        a.get(t.entries()[i].0),
        b.get(t.entries()[i].0),
        t.entries()[i].1,
    ) by {
        assert(pair_entries_ok(pred, lk, rk)(t.entries()[i].0, t.entries()[i].1));
    }
}

/// Visiting a map with one more entry runs the operation on that entry and on
/// every entry of the map before: whatever `visit` on the map that `insert`
/// of `(k, v)` gave ensures of each of its entries holds of `(k, v)` and of
/// each other entry of the old map.
pub proof fn law_visit_after_insert<K, V, Op: Fn(&K, &V)>(op: Op, m: Map<K, V>, k: K, v: V)
    requires
        forall|j: K| #[trigger] m.insert(k, v).dom().contains(j) ==> op.ensures((&j, &m.insert(k, v)[j]), ()),
    ensures
        op.ensures((&k, &v), ()),
        forall|j: K| #[trigger] m.dom().contains(j) && j != k ==> op.ensures((&j, &m[j]), ()),
{
    assert(m.insert(k, v).dom().contains(k));
    assert forall|j: K| #[trigger] m.dom().contains(j) && j != k implies op.ensures((&j, &m[j]), ()) by {
        assert(m.insert(k, v).dom().contains(j));
    }
}

/// A generic transmutation whose every result carries 1, reduced by addition
/// from the default 0, counts the entries of the map.
pub proof fn law_transmute_reduction_counts<K, V, S, X, RO, F>(reduce_op: RO, f: F, m: Map<K, V>, r: u64) where
    RO: Fn(&u64, &u64) -> u64,
    F: Fn(&K, &V) -> MapTransmuteResult<S, X, u64>,

    requires
        m.dom().finite(),
        transmute_reduced(reduce_op, MapTransmute::<u64, F>::Generic(f), m, r),
        forall|k: &K, v: &V, res: MapTransmuteResult<S, X, u64>| #[trigger] f.ensures((k, v), res) ==> res.reduced() == 1,
        forall|a: &u64, b: &u64, c: u64| #[trigger] reduce_op.ensures((a, b), c) ==> c == *a + *b,
    ensures
        r == m.len(),
{
    let op = MapTransmute::<u64, F>::Generic(f);
    let look = |k: K| m.get(k);
    let t = choose|t: Reduction<K, u64>|
        #![trigger t.combines(reduce_op)]
        reduction_fits(t, reduce_op, lookup_keys(look), transmute_entries_ok(op, look), transmute_others_ok(op))
            && t.value() == r;
    assert forall|i: int| 0 <= i < t.entries().len() implies #[trigger] t.entries()[i].1 == 1 by {
        let (k, y) = t.entries()[i];
        assert(transmute_entries_ok(op, look)(k, y));
        let res = choose|res: MapTransmuteResult<S, X, u64>| #[trigger] f.ensures((&k, &look(k)->Some_0), res) && res.reduced() == y;
    }
    assert forall|i: int| 0 <= i < t.others().len() implies #[trigger] t.others()[i] == 0 by {
        assert(transmute_others_ok(op)(t.others()[i]));
    }
    assert(lookup_keys(look) =~= m.dom());
    lemma_reduction_len(t, reduce_op, lookup_keys(look), transmute_entries_ok(op, look), transmute_others_ok(op));
    lemma_reduction_counts(t, reduce_op);
}

/// A joint transformation whose operations are all generic and whose every
/// result carries 1, reduced by addition from the default 0, counts the keys
/// of either map.
pub proof fn law_joint_reduction_counts<K, V, RO, B, LF, RF>(
    reduce_op: RO,
    both: B,
    flipped: bool,
    left: LF,
    right: RF,
    a: Map<K, V>,
    b: Map<K, V>,
    r: u64,
) where
    RO: Fn(&u64, &u64) -> u64,
    B: Fn(&K, &V, &K, &V) -> MapJointTransformResult<V, u64>,
    LF: Fn(&K, &V) -> MapTransformResult<V, u64>,
    RF: Fn(&K, &V) -> MapTransformResult<V, u64>,

    requires
        a.dom().finite(),
        b.dom().finite(),
        joint_reduced(
            reduce_op,
            MapJointTransform::<u64, B>::Generic(both, flipped),
            MapTransform::<u64, LF>::Generic(left),
            MapTransform::<u64, RF>::Generic(right),
            a,
            b,
            r,
        ),
        forall|k: &K, v: &V, l: &K, w: &V, res: MapJointTransformResult<V, u64>| #[trigger] both.ensures((k, v, l, w), res)
            ==> res.reduced() == 1,
        forall|k: &K, v: &V, res: MapTransformResult<V, u64>| #[trigger] left.ensures((k, v), res) ==> res.reduced() == 1,
        forall|k: &K, v: &V, res: MapTransformResult<V, u64>| #[trigger] right.ensures((k, v), res) ==> res.reduced() == 1,
        forall|x: &u64, y: &u64, c: u64| #[trigger] reduce_op.ensures((x, y), c) ==> c == *x + *y,
    ensures
        r == a.dom().union(b.dom()).len(),
{
    let bo = MapJointTransform::<u64, B>::Generic(both, flipped);
    let lo = MapTransform::<u64, LF>::Generic(left);
    let ro = MapTransform::<u64, RF>::Generic(right);
    let lk = |k: K| a.get(k);
    let rk = |k: K| b.get(k);
    let keys = lookup_keys(lk).union(lookup_keys(rk));
    let t = choose|t: Reduction<K, u64>|
        #![trigger t.combines(reduce_op)]
        reduction_fits(
            t,
            reduce_op,
            keys,
            joint_entries_ok(bo, lo, ro, lk, rk),
            joint_others_ok(bo, lo, ro),
        ) && t.value() == r;
    assert forall|i: int| 0 <= i < t.entries().len() implies #[trigger] t.entries()[i].1 == 1 by {
        let (k, y) = t.entries()[i];
        assert(joint_entries_ok(bo, lo, ro, lk, rk)(k, y));
        if a.dom().contains(k) && b.dom().contains(k) {
            let res = choose|res: MapJointTransformResult<V, u64>| #[trigger] bo.gives(k, a[k], k, b[k], res) && res.reduced() == y;
            if flipped {
                assert(both.ensures((&k, &b[k], &k, &a[k]), res.spec_flip()));
            } else {
                assert(both.ensures((&k, &a[k], &k, &b[k]), res));
            }
        } else if a.dom().contains(k) {
            let res = choose|res: MapTransformResult<V, u64>| #[trigger] left.ensures((&k, &a[k]), res) && res.reduced() == y;
        } else {
            let res = choose|res: MapTransformResult<V, u64>| #[trigger] right.ensures((&k, &b[k]), res) && res.reduced() == y;
        }
    }
    assert forall|i: int| 0 <= i < t.others().len() implies #[trigger] t.others()[i] == 0 by {
        assert(joint_others_ok(bo, lo, ro)(t.others()[i]));
    }
    assert(keys =~= a.dom().union(b.dom()));
    lemma_reduction_len(
        t,
        reduce_op,
        keys,
        joint_entries_ok(bo, lo, ro, lk, rk),
        joint_others_ok(bo, lo, ro),
    );
    lemma_reduction_counts(t, reduce_op);
}

/// Any of the joint operations whose reduction is stated by `pair_reduced_at`
/// (`transform_with_transfuted`, `transfute_with_transformed`,
/// `transmute_with_transmuted`, `transform_with_transmuted`,
/// `transmute_with_transformed`), with operations that are all generic and
/// whose every result carries 1, reduced by addition from the default 0,
/// counts the keys of either map.
pub proof fn law_pair_reduction_counts<K, V, W, RO>(
    reduce_op: RO,
    pred: spec_fn(K, Option<V>, Option<W>, u64) -> bool,
    others: spec_fn(u64) -> bool,
    a: Map<K, V>,
    b: Map<K, W>,
    r: u64,
) where RO: Fn(&u64, &u64) -> u64
    requires
        a.dom().finite(),
        b.dom().finite(),
        pair_reduced_at(reduce_op, pred, others, |k: K| a.get(k), |k: K| b.get(k), r),
        forall|k: K, lv: Option<V>, rv: Option<W>, y: u64| #[trigger] pred(k, lv, rv, y) ==> y == 1,
        forall|y: u64| #[trigger] others(y) ==> y == 0,
        forall|x: &u64, y: &u64, c: u64| #[trigger] reduce_op.ensures((x, y), c) ==> c == *x + *y,
    ensures
        r == a.dom().union(b.dom()).len(),
{
    let lk = |k: K| a.get(k);
    let rk = |k: K| b.get(k);
    let keys = lookup_keys(lk).union(lookup_keys(rk));
    let t = choose|t: Reduction<K, u64>|
        #![trigger t.combines(reduce_op)]
        reduction_fits(t, reduce_op, keys, pair_entries_ok(pred, lk, rk), others)
            && t.value() == r;
    assert forall|i: int| 0 <= i < t.entries().len() implies #[trigger] t.entries()[i].1 == 1 by {
        let (k, y) = t.entries()[i];
        assert(pair_entries_ok(pred, lk, rk)(k, y));
        assert(pred(k, lk(k), rk(k), y));
    }
    assert forall|i: int| 0 <= i < t.others().len() implies #[trigger] t.others()[i] == 0 by {
        assert(others(t.others()[i]));
    }
    assert(keys =~= a.dom().union(b.dom()));
    lemma_reduction_len(t, reduce_op, keys, pair_entries_ok(pred, lk, rk), others);
    lemma_reduction_counts(t, reduce_op);
}

} // verus!
