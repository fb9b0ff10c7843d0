//! The persistent hash array mapped trie that the maps and sets are built on.
use vstd::prelude::*;
use std::marker::PhantomData;
use crate::hashing::{HasherBv, Key};
use crate::node::{
    InsertResult, JointTransformResult, MNode, RemoveResult, TransformResult, TransmuteResult, agrees_below,
    joint_accepts_entry, keys_agree, lookup_in, node_lookup, opt_lookup, node_keys, node_transform_entries_ok,
};
use crate::reduction::{Reduction, lemma_fits_weaken, reduction_fits};
use crate::results::{HashTrieError, MapJointTransformResult, MapTransformResult, MapTransmuteResult, SetTransmuteResult};
use crate::transformations::{
    MapJointTransform, MapTransform, MapTransmute, SetTransmute, joint_transmute_accepts_entry, joint_transmute_gives,
    joint_transmuted_by, keyed_transmute, transfute_with_transformed_accepts, transmute_with_transmuted_accepts,
    transmute_with_transmuted_keeps_places, transmute_with_transmuted_map, transform_with_transmuted_accepts,
    transform_with_transmuted_accepts_entry, transform_with_transmuted_by, transform_with_transmuted_keeps_places,
    transform_with_transmuted_left_entry, transform_with_transmuted_map, transmute_with_transformed_accepts,
    transmute_with_transformed_accepts_entry, transmute_with_transformed_by, transmute_with_transformed_keeps_places,
    transmute_with_transformed_map, transmute_with_transformed_right_entry,
    transfute_with_transformed_accepts_entry, transfute_with_transformed_entry, transfute_with_transformed_map,
    transform_with_transfuted_accepts,
    transform_with_transfuted_accepts_entry, transform_with_transfuted_entry, transform_with_transfuted_map, accepts_all, joint_accepts_all, joint_transformed_entry,
    joint_transformed_map, reduces_all, transformed_entry, transformed_map, transmute_accepts_all, transmute_keeps_places,
    transmuted_by, transmuted_map, transform_reduced, transform_entries_ok, transform_others_ok, transmute_reduced,
    joint_reduced, transfuted_reduced, transfute_reduced, transfuted_pred, transfute_pred, transfuted_others,
    transfute_others, pair_entries_ok, lookup_keys, joint_transmute_reduced, transform_transmute_reduced,
    transmute_transform_reduced, transform_transmute_pred, transmute_transform_pred, transform_transmute_others,
    transmute_transform_others,
};
use vstd::pervasive::cloned;

verus! {

/// `HashTrie` maps keys to values. Every operation leaves the trie it is called
/// on unchanged and returns a new one, which shares the untouched nodes.
pub struct HashTrie<K: Key, V, M: HasherBv<u64, K>> {
    root: MNode<K, V>,
    hasher: PhantomData<M>,
}

impl<K: Key, V, M: HasherBv<u64, K>> View for HashTrie<K, V, M> {
    type V = Map<K, V>;

    closed spec fn view(&self) -> Map<K, V> {
        self.root.view_at::<M>(0)
    }
}

impl<K: Key, V, M: HasherBv<u64, K>> Clone for HashTrie<K, V, M> {
    /// A trie sharing this trie's root.
    fn clone(&self) -> (r: Self)
        ensures
            r@ == self@,
    {
        proof {
            use_type_invariant(self);
        }
        HashTrie { root: self.root.clone(), hasher: PhantomData }
    }
}

/// Every key agrees with every hash below depth zero.
proof fn lemma_agree_at_root<K, V, M: HasherBv<u64, K>>(root: MNode<K, V>, hash: u64)
    ensures
        keys_agree::<K, V, M>(root, hash, 0),
{
    assert forall|k: K| #[trigger] root.lookup::<M>(k, 0) is Some implies agrees_below(M::hash_of(k), hash, 0) by {
    }
}

impl<K: Key, V, M: HasherBv<u64, K>> HashTrie<K, V, M> {
    /// The root is a well-formed node at depth zero.
    #[verifier::type_invariant]
    closed spec fn inv(self) -> bool {
        self.root.wf::<M>(0)
    }

    /// A new, empty trie.
    pub fn new() -> (r: Self)
        ensures
            r@ == Map::<K, V>::empty(),
    {
        HashTrie { root: MNode::empty::<M>(), hasher: PhantomData }
    }

    /// A trie with the given root.
    fn singleton(root: MNode<K, V>) -> (r: Self)
        requires
            root.wf::<M>(0),
        ensures
            r@ == root.view_at::<M>(0),
    {
        HashTrie { root, hasher: PhantomData }
    }

    /// The number of entries.
    pub fn size(&self) -> (r: usize)
        ensures
            self@.dom().finite(),
            r == self@.len(),
    {
        proof {
            use_type_invariant(self);
            self.root.lemma_size_view::<M>(0);
        }
        self.root.size()
    }

    /// The entry for `key`, or `HashTrieError::NotFound`.
    pub fn find<'a>(&'a self, key: &K) -> (r: Result<(&'a K, &'a V), HashTrieError>)
        ensures
            match r {
                Ok((k, v)) => self@.contains_key(*key) && *k == *key && *v == self@[*key],
                Err(e) => !self@.contains_key(*key) && e == HashTrieError::NotFound,
            },
    {
        let hash = M::hash(key);
        match self.root.find::<M>(key, hash, 0) {
            Some((k, v)) => Ok((k, v)),
            None => Err(HashTrieError::NotFound),
        }
    }

    /// A trie with `key` mapped to `value` and the entry it replaced, if any; or,
    /// when `key` is present and `replace` is false, the entry already there.
    pub fn insert<'a>(&'a self, key: K, value: V, replace: bool) -> (r: Result<
        (Self, Option<(&'a K, &'a V)>),
        (&'a K, &'a V),
    >)
        requires
            self@.len() < usize::MAX,
        ensures
            match r {
                Ok((t, prev)) => {
                    &&& t@ == self@.insert(key, value)
                    &&& match prev {
                        Some((k, v)) => replace && self@.contains_key(key) && *k == key && *v == self@[key],
                        None => !self@.contains_key(key),
                    }
                },
                Err((k, v)) => !replace && self@.contains_key(key) && *k == key && *v == self@[key],
            },
    {
        proof {
            use_type_invariant(self);
            self.root.lemma_size_view::<M>(0);
        }
        let hash = M::hash(&key);
        proof {
            lemma_agree_at_root::<K, V, M>(self.root, hash);
        }
        let ghost old = self.root;
        let res = self.root.insert::<M>(key, value, hash, 0, replace);
        let ghost node = res.node();
        proof {
            if !(res is Found) {
                assert(node.view_at::<M>(0) =~= old.view_at::<M>(0).insert(key, value));
            }
        }
        match res {
            InsertResult::Found(k, v) => Err((k, v)),
            InsertResult::InsertedC(c, prev) => Ok((Self::singleton(MNode::C(c)), prev)),
            InsertResult::InsertedL(l, prev) => Ok((Self::singleton(MNode::L(l)), prev)),
            InsertResult::InsertedS(s, prev) => Ok((Self::singleton(MNode::S(s)), prev)),
        }
    }

    /// A trie without `key` and the entry removed, or `HashTrieError::NotFound`.
    pub fn remove<'a>(&'a self, key: &K) -> (r: Result<(Self, &'a K, &'a V), HashTrieError>)
        ensures
            match r {
                Ok((t, k, v)) => self@.contains_key(*key) && t@ == self@.remove(*key) && *k == *key && *v
                    == self@[*key],
                Err(e) => !self@.contains_key(*key) && e == HashTrieError::NotFound,
            },
    {
        proof {
            use_type_invariant(self);
        }
        let hash = M::hash(key);
        let ghost old = self.root;
        let res = self.root.remove::<M>(key, hash, 0);
        let ghost node = res.node();
        proof {
            if res is RemovedZ {
                assert(Map::<K, V>::empty() =~= old.view_at::<M>(0).remove(*key));
            } else if !(res is NotFound) {
                assert(node.view_at::<M>(0) =~= old.view_at::<M>(0).remove(*key));
            }
        }
        match res {
            RemoveResult::NotFound => Err(HashTrieError::NotFound),
            RemoveResult::RemovedC(c, k, v) => Ok((Self::singleton(MNode::C(c)), k, v)),
            RemoveResult::RemovedL(l, k, v) => Ok((Self::singleton(MNode::L(l)), k, v)),
            RemoveResult::RemovedS(s, k, v) => Ok((Self::singleton(MNode::S(s)), k, v)),
            RemoveResult::RemovedZ(k, v) => Ok((Self::new(), k, v)),
        }
    }

    /// Run the operation on every entry.
    pub fn visit<Op: Fn(&K, &V)>(&self, op: &Op)
        requires
            forall|k: K| #[trigger] self@.dom().contains(k) ==> op.requires((&k, &self@[k])),
        ensures
            forall|k: K| #[trigger] self@.dom().contains(k) ==> op.ensures((&k, &self@[k]), ()),
    {
        proof {
            use_type_invariant(self);
            assert forall|k: K| #[trigger] self.root.lookup::<M>(k, 0) is Some implies op.requires(
                (&k, &self.root.lookup::<M>(k, 0)->Some_0),
            ) by {
                assert(self@.dom().contains(k));
            }
        }
        self.root.visit::<M, Op>(op, 0);
        proof {
            assert forall|k: K| #[trigger] self@.dom().contains(k) implies op.ensures((&k, &self@[k]), ()) by {
                assert(self.root.lookup::<M>(k, 0) is Some);
            }
        }
    }

    /// The trie with the transformation run on each entry, and the reduction of
    /// the values that the runs gave.
    pub fn transform<R: Clone + Default, RO: Fn(&R, &R) -> R, F: Fn(&K, &V) -> MapTransformResult<V, R>>(
        &self,
        reduce_op: &RO,
        op: &MapTransform<R, F>,
    ) -> (r: (Self, R))
        requires
            accepts_all(*op, self@),
            reduces_all(*reduce_op),
        ensures
            transformed_map(*op, self@, r.0@),
            transform_reduced(*reduce_op, *op, self@, r.1),
    {
        proof {
            use_type_invariant(self);
            assert forall|k: K| #[trigger] self.root.lookup::<M>(k, 0) is Some implies op.accepts(
                k,
                self.root.lookup::<M>(k, 0)->Some_0,
            ) by {
                assert(self@.dom().contains(k));
            }
        }
        let res = self.root.transform::<M, R, RO, F>(reduce_op, op, 0);
        let ghost new = res.node_after(self.root);
        let r = match res {
            TransformResult::Unchanged(red) => (Self::singleton(self.root.clone()), red),
            TransformResult::C(c, red) => (Self::singleton(MNode::C(c)), red),
            TransformResult::L(l, red) => (Self::singleton(MNode::L(l)), red),
            TransformResult::S(s, red) => (Self::singleton(MNode::S(s)), red),
            TransformResult::Removed(red) => (Self::new(), red),
        };
        proof {
            assert forall|k: K| #[trigger] r.0@.get(k) == lookup_in::<K, V, M>(new, k, 0) by {
            }
            assert forall|k: K| #[trigger] self@.get(k) == self.root.lookup::<M>(k, 0) by {
            }
            assert forall|k: K| transformed_entry(*op, k, #[trigger] self@.get(k), r.0@.get(k)) by {
                assert(r.0@.get(k) == lookup_in::<K, V, M>(new, k, 0));
            }
            assert(res.reduced() == r.1);
            let t = choose|t: Reduction<K, R>|
                #![trigger t.combines(*reduce_op)]
                reduction_fits(
                    t,
                    *reduce_op,
                    node_keys::<K, V, M>(self.root, 0),
                    node_transform_entries_ok::<K, V, R, F, M>(*op, self.root, 0),
                    transform_others_ok(*op),
                ) && t.value() == r.1;
            assert(node_keys::<K, V, M>(self.root, 0) =~= self@.dom());
            assert forall|k: K, y: R|
                node_keys::<K, V, M>(self.root, 0).contains(k) && #[trigger] node_transform_entries_ok::<K, V, R, F, M>(
                    *op,
                    self.root,
                    0,
                )(k, y) implies #[trigger] transform_entries_ok(*op, self@)(k, y) by {
                assert(self@.get(k) == self.root.lookup::<M>(k, 0));
            }
            lemma_fits_weaken(
                t,
                *reduce_op,
                node_keys::<K, V, M>(self.root, 0),
                self@.dom(),
                node_transform_entries_ok::<K, V, R, F, M>(*op, self.root, 0),
                transform_entries_ok(*op, self@),
                transform_others_ok(*op),
                transform_others_ok(*op),
            );
        }
        r
    }

    /// The joint transformation of this trie and `right`: `both_op` on the keys
    /// of both, `left_op` and `right_op` on the keys of one only; and the
    /// reduction of the values that the runs gave.
    pub fn transform_with_transformed<
        R: Clone + Default,
        RO: Fn(&R, &R) -> R,
        B: Fn(&K, &V, &K, &V) -> MapJointTransformResult<V, R>,
        LF: Fn(&K, &V) -> MapTransformResult<V, R>,
        RF: Fn(&K, &V) -> MapTransformResult<V, R>,
    >(
        &self,
        right: &Self,
        reduce_op: &RO,
        both_op: &MapJointTransform<R, B>,
        left_op: &MapTransform<R, LF>,
        right_op: &MapTransform<R, RF>,
    ) -> (r: (Self, R))
        requires
            joint_accepts_all(*both_op, *left_op, *right_op, self@, right@),
            reduces_all(*reduce_op),
            self@.dom().union(right@.dom()).len() <= usize::MAX,
        ensures
            joint_transformed_map(*both_op, *left_op, *right_op, self@, right@, r.0@),
            joint_reduced(*reduce_op, *both_op, *left_op, *right_op, self@, right@, r.1),
    {
        proof {
            use_type_invariant(self);
            use_type_invariant(right);
            assert(crate::node::keys_below::<K, V, V, M>(self.root, right.root, 0) == self@.dom().union(right@.dom()));
            assert forall|k: K|
                #![trigger self.root.lookup::<M>(k, 0)]
                #![trigger right.root.lookup::<M>(k, 0)]
                joint_accepts_entry(*both_op, *left_op, *right_op, k, self.root.lookup::<M>(k, 0), right.root.lookup::<M>(k, 0)) by {
                assert(self@.get(k) == self.root.lookup::<M>(k, 0));
                assert(right@.get(k) == right.root.lookup::<M>(k, 0));
                if self.root.lookup::<M>(k, 0) is Some {
                    assert(self@.dom().contains(k));
                } else if right.root.lookup::<M>(k, 0) is Some {
                    assert(right@.dom().contains(k));
                }
            }
        }
        let res = self.root.transform_with_transformed::<M, R, RO, B, LF, RF>(
            &right.root,
            reduce_op,
            both_op,
            left_op,
            right_op,
            0,
        );
        let ghost new = res.node_after(self.root, right.root);
        let r = match res {
            JointTransformResult::UnchangedLR(red) => (Self::singleton(self.root.clone()), red),
            JointTransformResult::UnchangedL(red) => (Self::singleton(self.root.clone()), red),
            JointTransformResult::UnchangedR(red) => (Self::singleton(right.root.clone()), red),
            JointTransformResult::C(c, red) => (Self::singleton(MNode::C(c)), red),
            JointTransformResult::L(l, red) => (Self::singleton(MNode::L(l)), red),
            JointTransformResult::S(s, red) => (Self::singleton(MNode::S(s)), red),
            JointTransformResult::Removed(red) => (Self::new(), red),
        };
        proof {
            assert forall|k: K| #[trigger] r.0@.get(k) == lookup_in::<K, V, M>(new, k, 0) by {
            }
            assert forall|k: K|
                joint_transformed_entry(*both_op, *left_op, *right_op, k, #[trigger] self@.get(k), right@.get(k), r.0@.get(k)) by {
                assert(self@.get(k) == self.root.lookup::<M>(k, 0));
                assert(right@.get(k) == right.root.lookup::<M>(k, 0));
                assert(r.0@.get(k) == lookup_in::<K, V, M>(new, k, 0));
            }
            assert(node_lookup::<K, V, M>(self.root, 0) =~= (|k: K| self@.get(k)));
            assert(node_lookup::<K, V, M>(right.root, 0) =~= (|k: K| right@.get(k)));
            assert(res.reduced() == r.1);
        }
        r
    }

    /// The trie with the transmutation run on each entry, each new entry in the
    /// place of the entry it comes from, and the reduction of the values that
    /// the runs gave.
    pub fn transmute<S: Key, X, R: Clone + Default, RO: Fn(&R, &R) -> R, F: Fn(&K, &V) -> MapTransmuteResult<S, X, R>>(
        &self,
        reduce_op: &RO,
        op: &MapTransmute<R, F>,
    ) -> (r: (HashTrie<S, X, M>, R)) where
        M: HasherBv<u64, S>,

        requires
            transmute_accepts_all(*op, self@),
            transmute_keeps_places::<K, V, S, X, R, F, M>(*op, self@),
            reduces_all(*reduce_op),
        ensures
            transmuted_map(*op, self@, r.0@),
            transmute_reduced(*reduce_op, *op, self@, r.1),
    {
        let ghost pl = node_lookup::<K, V, M>(self.root, 0);
        proof {
            use_type_invariant(self);
            assert forall|k: K| #[trigger] pl(k) == self@.get(k) by {
            }
            assert forall|k: K, r: MapTransmuteResult<S, X, R>|
                #![trigger op.gives(k, pl(k)->Some_0, r)]
                pl(k) is Some && op.gives(k, pl(k)->Some_0, r) && r.new_entry() is Some implies <M as HasherBv<u64, S>>::hash_of(
                r.new_entry()->Some_0.0,
            ) == <M as HasherBv<u64, K>>::hash_of(k) by {
                assert(self@.dom().contains(k));
                assert(op.gives(k, self@[k], r));
            }
            assert forall|k1: K, k2: K, r1: MapTransmuteResult<S, X, R>, r2: MapTransmuteResult<S, X, R>|
                #![trigger op.gives(k1, pl(k1)->Some_0, r1), op.gives(k2, pl(k2)->Some_0, r2)]
                pl(k1) is Some && pl(k2) is Some && k1 != k2 && op.gives(k1, pl(k1)->Some_0, r1) && op.gives(
                    k2,
                    pl(k2)->Some_0,
                    r2,
                ) && r1.new_entry() is Some && r2.new_entry() is Some implies r1.new_entry()->Some_0.0
                != r2.new_entry()->Some_0.0 by {
                assert(self@.dom().contains(k1));
                assert(self@.dom().contains(k2));
                assert(op.gives(k1, self@[k1], r1));
                assert(op.gives(k2, self@[k2], r2));
            }
            assert forall|k: K| #[trigger] pl(k) is Some implies op.accepts(k, pl(k)->Some_0) by {
                assert(self@.dom().contains(k));
            }
        }
        let (res, outs) = self.root.transmute::<S, X, R, RO, F, M>(reduce_op, op, 0);
        let ghost new = res.node();
        let r = match res {
            TransmuteResult::C(c, red) => (HashTrie::<S, X, M>::singleton(MNode::C(c)), red),
            TransmuteResult::L(l, red) => (HashTrie::<S, X, M>::singleton(MNode::L(l)), red),
            TransmuteResult::S(s, red) => (HashTrie::<S, X, M>::singleton(MNode::S(s)), red),
            TransmuteResult::Removed(red) => (HashTrie::<S, X, M>::new(), red),
        };
        proof {
            let nl = opt_lookup::<S, X, M>(new, 0);
            assert forall|s: S| #[trigger] r.0@.get(s) == nl(s) by {
            }
            assert(outs@.dom() =~= self@.dom()) by {
                assert forall|k: K| #[trigger] outs@.dom().contains(k) == self@.dom().contains(k) by {
                    assert(pl(k) == self@.get(k));
                }
            }
            assert forall|k: K| #[trigger] outs@.dom().contains(k) && outs@[k].new_entry() is Some implies r.0@.get(
                outs@[k].new_entry()->Some_0.0,
            ) == Some(outs@[k].new_entry()->Some_0.1) by {
                assert(nl(outs@[k].new_entry()->Some_0.0) == Some(outs@[k].new_entry()->Some_0.1));
            }
            assert forall|s: S| #[trigger] r.0@.dom().contains(s) implies exists|k: K| #[trigger]
                outs@.dom().contains(k) && outs@[k].new_entry() is Some && outs@[k].new_entry()->Some_0.0 == s by {
                assert(nl(s) is Some);
            }
            assert(transmuted_by(self@, outs@, r.0@));
            assert forall|k: K| #[trigger] self@.dom().contains(k) implies op.gives(k, self@[k], outs@[k]) by {
                assert(pl(k) == self@.get(k));
                assert(outs@.dom().contains(k));
            }
            assert(pl =~= (|k: K| self@.get(k)));
            assert(res.reduced() == r.1);
        }
        r
    }
    /// `transform_with_transfuted` on this trie and `right`, whose values are of
    /// another type: `both_op` on the keys of both, `left_op` on the keys of this
    /// trie only, and `right_op`, which keeps the key, on the keys of `right`
    /// only; and the reduction of the values that the runs gave.
    pub fn transform_with_transfuted<
        W,
        R: Clone + Default,
        RO: Fn(&R, &R) -> R,
        B: Fn(&K, &V, &K, &W) -> MapTransformResult<V, R>,
        LF: Fn(&K, &V) -> MapTransformResult<V, R>,
        RF: Fn(&K, &W) -> SetTransmuteResult<V, R>,
    >(
        &self,
        right: &HashTrie<K, W, M>,
        reduce_op: &RO,
        both_op: &MapTransform<R, B>,
        left_op: &MapTransform<R, LF>,
        right_op: &SetTransmute<R, RF>,
    ) -> (r: (Self, R))
        requires
            transform_with_transfuted_accepts(*both_op, *left_op, *right_op, self@, right@),
            reduces_all(*reduce_op),
            self@.dom().union(right@.dom()).len() <= usize::MAX,
        ensures
            transform_with_transfuted_map(*both_op, *left_op, *right_op, self@, right@, r.0@),
            transfuted_reduced(*reduce_op, *both_op, *left_op, *right_op, self@, right@, r.1),
    {
        proof {
            use_type_invariant(self);
            use_type_invariant(right);
            assert(crate::node::keys_below::<K, V, W, M>(self.root, right.root, 0) == self@.dom().union(right@.dom()));
            assert forall|k: K|
                #![trigger self.root.lookup::<M>(k, 0)]
                #![trigger right.root.lookup::<M>(k, 0)]
                transform_with_transfuted_accepts_entry(
                    *both_op,
                    *left_op,
                    *right_op,
                    k,
                    self.root.lookup::<M>(k, 0),
                    right.root.lookup::<M>(k, 0),
                ) by {
                assert(self@.get(k) == self.root.lookup::<M>(k, 0));
                assert(right@.get(k) == right.root.lookup::<M>(k, 0));
                if self.root.lookup::<M>(k, 0) is Some {
                    assert(self@.dom().contains(k));
                } else if right.root.lookup::<M>(k, 0) is Some {
                    assert(right@.dom().contains(k));
                }
            }
        }
        let keyed = keyed_transmute(right_op);
        let res = self.root.transform_with_transfuted::<M, W, R, RO, B, LF, RF, _>(
            &right.root,
            reduce_op,
            both_op,
            left_op,
            right_op,
            &keyed,
            0,
        );
        let ghost new = res.node_after(self.root);
        let r = match res {
            TransformResult::Unchanged(red) => (Self::singleton(self.root.clone()), red),
            TransformResult::C(c, red) => (Self::singleton(MNode::C(c)), red),
            TransformResult::L(l, red) => (Self::singleton(MNode::L(l)), red),
            TransformResult::S(s, red) => (Self::singleton(MNode::S(s)), red),
            TransformResult::Removed(red) => (Self::new(), red),
        };
        proof {
            assert forall|k: K| #[trigger] r.0@.get(k) == lookup_in::<K, V, M>(new, k, 0) by {
            }
            assert forall|k: K|
                transform_with_transfuted_entry(*both_op, *left_op, *right_op, k, #[trigger] self@.get(k), right@.get(k), r.0@.get(k)) by {
                assert(self@.get(k) == self.root.lookup::<M>(k, 0));
                assert(right@.get(k) == right.root.lookup::<M>(k, 0));
                assert(r.0@.get(k) == lookup_in::<K, V, M>(new, k, 0));
            }
            assert(node_lookup::<K, V, M>(self.root, 0) =~= (|k: K| self@.get(k)));
            assert(node_lookup::<K, W, M>(right.root, 0) =~= (|k: K| right@.get(k)));
            assert(res.reduced() == r.1);
        }
        r
    }
    /// `transfute_with_transformed` on this trie and `right`, whose values are of
    /// another type: `both_op` on the keys of both, `left_op`, which keeps the
    /// key, on the keys of this trie only, and `right_op` on the keys of `right`
    /// only; the result has the values of `right`'s type. It is
    /// `transform_with_transfuted` run from `right`'s side with `both_op` flipped.
    pub fn transfute_with_transformed<
        W,
        R: Clone + Default,
        RO: Fn(&R, &R) -> R,
        B: Fn(&K, &V, &K, &W) -> MapTransformResult<W, R>,
        LF: Fn(&K, &V) -> SetTransmuteResult<W, R>,
        RF: Fn(&K, &W) -> MapTransformResult<W, R>,
    >(
        &self,
        right: &HashTrie<K, W, M>,
        reduce_op: &RO,
        both_op: &MapTransform<R, B>,
        left_op: &SetTransmute<R, LF>,
        right_op: &MapTransform<R, RF>,
    ) -> (r: (HashTrie<K, W, M>, R))
        requires
            transfute_with_transformed_accepts(*both_op, *left_op, *right_op, self@, right@),
            reduces_all(*reduce_op),
            self@.dom().union(right@.dom()).len() <= usize::MAX,
        ensures
            transfute_with_transformed_map(*both_op, *left_op, *right_op, self@, right@, r.0@),
            transfute_reduced(*reduce_op, *both_op, *left_op, *right_op, self@, right@, r.1),
    {
        let flipped = both_op.flip_transmute_transform::<K, V, K, W>();
        proof {
            assert(right@.dom().union(self@.dom()) =~= self@.dom().union(right@.dom()));
            assert forall|k: K|
                #![trigger right@.dom().contains(k)]
                #![trigger self@.dom().contains(k)]
                transform_with_transfuted_accepts_entry(flipped, *right_op, *left_op, k, right@.get(k), self@.get(k)) by {
                assert(transfute_with_transformed_accepts_entry(*both_op, *left_op, *right_op, k, self@.get(k), right@.get(k)));
                if right@.dom().contains(k) && self@.dom().contains(k) {
                    if let MapTransform::Generic(f) = *both_op {
                        assert(f.requires((&k, &self@[k], &k, &right@[k])));
                    }
                }
            }
        }
        let r = right.transform_with_transfuted(self, reduce_op, &flipped, right_op, left_op);
        proof {
            assert forall|k: K|
                transfute_with_transformed_entry(*both_op, *left_op, *right_op, k, #[trigger] self@.get(k), right@.get(k), r.0@.get(k)) by {
                assert(transform_with_transfuted_entry(flipped, *right_op, *left_op, k, right@.get(k), self@.get(k), r.0@.get(k)));
                if right@.dom().contains(k) && self@.dom().contains(k) {
                    let v = self@[k];
                    let w = right@[k];
                    let t = choose|t: MapTransformResult<W, R>| #[trigger] flipped.gives_transform_transmute(k, w, k, v, t)
                        && t.applied_to(w) == r.0@.get(k);
                    if let MapTransform::Generic(g) = flipped {
                        assert(g.ensures((&k, &w, &k, &v), t));
                    }
                    assert(both_op.gives_transmute_transform(k, v, k, w, t));
                }
            }
            let sl = |k: K| self@.get(k);
            let rl = |k: K| right@.get(k);
            let fpred = transfuted_pred(flipped, *right_op, *left_op);
            let tpred = transfute_pred(*both_op, *left_op, *right_op);
            let t = choose|t: Reduction<K, R>|
                #![trigger t.combines(*reduce_op)]
                reduction_fits(
                    t,
                    *reduce_op,
                    lookup_keys(rl).union(lookup_keys(sl)),
                    pair_entries_ok(fpred, rl, sl),
                    transfuted_others(*right_op, *left_op),
                ) && t.value() == r.1;
            assert(lookup_keys(rl).union(lookup_keys(sl)) =~= lookup_keys(sl).union(lookup_keys(rl)));
            assert forall|k: K, y: R|
                lookup_keys(rl).union(lookup_keys(sl)).contains(k) && #[trigger] pair_entries_ok(fpred, rl, sl)(k, y) implies #[trigger] pair_entries_ok(
                tpred,
                sl,
                rl,
            )(k, y) by {
                if self@.dom().contains(k) && right@.dom().contains(k) {
                    let v = self@[k];
                    let w = right@[k];
                    match flipped {
                        MapTransform::Generic(g) => {
                            let res = choose|res: MapTransformResult<W, R>| #[trigger] g.ensures((&k, &w, &k, &v), res) && res.reduced() == y;
                            if let MapTransform::Generic(f) = *both_op {
                                assert(f.ensures((&k, &v, &k, &w), res));
                            }
                        },
                        MapTransform::Unchanged(x2) => {
                            if let MapTransform::Unchanged(x1) = *both_op {
                                assert(cloned(x1, x2));
                                assert(cloned(x2, y));
                            }
                        },
                        MapTransform::Removed(x2) => {
                            if let MapTransform::Removed(x1) = *both_op {
                                assert(cloned(x1, x2));
                                assert(cloned(x2, y));
                            }
                        },
                    }
                }
            }
            assert forall|y: R| #[trigger] transfuted_others(*right_op, *left_op)(y) implies transfute_others(*left_op, *right_op)(y) by {
            }
            lemma_fits_weaken(
                t,
                *reduce_op,
                lookup_keys(rl).union(lookup_keys(sl)),
                lookup_keys(sl).union(lookup_keys(rl)),
                pair_entries_ok(fpred, rl, sl),
                pair_entries_ok(tpred, sl, rl),
                transfuted_others(*right_op, *left_op),
                transfute_others(*left_op, *right_op),
            );
        }
        r
    }
    /// `transmute_with_transmuted` on this trie and `right`, whose values are of
    /// another type: `both_op` on the keys of both, `left_op` and `right_op` on
    /// the keys of one only, each new entry in the place of the entry it comes
    /// from; and the reduction of the values that the runs gave.
    pub fn transmute_with_transmuted<
        W,
        S: Key,
        X,
        R: Clone + Default,
        RO: Fn(&R, &R) -> R,
        B: Fn(&K, &V, &K, &W) -> MapTransmuteResult<S, X, R>,
        LF: Fn(&K, &V) -> MapTransmuteResult<S, X, R>,
        RF: Fn(&K, &W) -> MapTransmuteResult<S, X, R>,
    >(
        &self,
        right: &HashTrie<K, W, M>,
        reduce_op: &RO,
        both_op: &MapTransmute<R, B>,
        left_op: &MapTransmute<R, LF>,
        right_op: &MapTransmute<R, RF>,
    ) -> (r: (HashTrie<S, X, M>, R)) where
        M: HasherBv<u64, S>,

        requires
            transmute_with_transmuted_accepts(*both_op, *left_op, *right_op, self@, right@),
            transmute_with_transmuted_keeps_places::<K, V, W, S, X, R, B, LF, RF, M>(*both_op, *left_op, *right_op, self@, right@),
            reduces_all(*reduce_op),
            self@.dom().union(right@.dom()).len() <= usize::MAX,
        ensures
            transmute_with_transmuted_map(*both_op, *left_op, *right_op, self@, right@, r.0@),
            joint_transmute_reduced(*reduce_op, *both_op, *left_op, *right_op, self@, right@, r.1),
    {
        let ghost pl = node_lookup::<K, V, M>(self.root, 0);
        let ghost pr = node_lookup::<K, W, M>(right.root, 0);
        proof {
            use_type_invariant(self);
            use_type_invariant(right);
            assert forall|k: K| #[trigger] pl(k) == self@.get(k) by {
            }
            assert forall|k: K| #[trigger] pr(k) == right@.get(k) by {
            }
            assert(crate::node::keys_below::<K, V, W, M>(self.root, right.root, 0) == self@.dom().union(right@.dom()));
            assert forall|k: K|
                #![trigger pl(k)]
                #![trigger pr(k)]
                joint_transmute_accepts_entry::<K, V, W, S, X, R, B, LF, RF>(*both_op, *left_op, *right_op, k, pl(k), pr(k)) by {
                assert(pl(k) == self@.get(k));
                assert(pr(k) == right@.get(k));
                if pl(k) is Some {
                    assert(self@.dom().contains(k));
                } else if pr(k) is Some {
                    assert(right@.dom().contains(k));
                }
            }
            assert forall|k: K, r: MapTransmuteResult<S, X, R>|
                #![trigger joint_transmute_gives(*both_op, *left_op, *right_op, k, pl(k), pr(k), r)]
                joint_transmute_gives(*both_op, *left_op, *right_op, k, pl(k), pr(k), r) && r.new_entry() is Some implies <M as HasherBv<
                    u64,
                    S,
                >>::hash_of(r.new_entry()->Some_0.0) == <M as HasherBv<u64, K>>::hash_of(k) by {
                assert(pl(k) == self@.get(k));
                assert(pr(k) == right@.get(k));
                assert(joint_transmute_gives(*both_op, *left_op, *right_op, k, self@.get(k), right@.get(k), r));
            }
            assert forall|k1: K, k2: K, r1: MapTransmuteResult<S, X, R>, r2: MapTransmuteResult<S, X, R>|
                #![trigger joint_transmute_gives(*both_op, *left_op, *right_op, k1, pl(k1), pr(k1), r1), joint_transmute_gives(*both_op, *left_op, *right_op, k2, pl(k2), pr(k2), r2)]
                k1 != k2 && joint_transmute_gives(*both_op, *left_op, *right_op, k1, pl(k1), pr(k1), r1)
                    && joint_transmute_gives(*both_op, *left_op, *right_op, k2, pl(k2), pr(k2), r2) && r1.new_entry() is Some
                    && r2.new_entry() is Some implies r1.new_entry()->Some_0.0 != r2.new_entry()->Some_0.0 by {
                assert(pl(k1) == self@.get(k1));
                assert(pr(k1) == right@.get(k1));
                assert(pl(k2) == self@.get(k2));
                assert(pr(k2) == right@.get(k2));
                assert(joint_transmute_gives(*both_op, *left_op, *right_op, k1, self@.get(k1), right@.get(k1), r1));
                assert(joint_transmute_gives(*both_op, *left_op, *right_op, k2, self@.get(k2), right@.get(k2), r2));
            }
        }
        let (res, outs) = self.root.transmute_with_transmuted::<M, W, S, X, R, RO, B, LF, RF>(
            &right.root,
            reduce_op,
            both_op,
            left_op,
            right_op,
            0,
        );
        let ghost new = res.node();
        let r = match res {
            TransmuteResult::C(c, red) => (HashTrie::<S, X, M>::singleton(MNode::C(c)), red),
            TransmuteResult::L(l, red) => (HashTrie::<S, X, M>::singleton(MNode::L(l)), red),
            TransmuteResult::S(s, red) => (HashTrie::<S, X, M>::singleton(MNode::S(s)), red),
            TransmuteResult::Removed(red) => (HashTrie::<S, X, M>::new(), red),
        };
        proof {
            let nl = opt_lookup::<S, X, M>(new, 0);
            assert forall|s: S| #[trigger] r.0@.get(s) == nl(s) by {
            }
            assert(outs@.dom() =~= self@.dom().union(right@.dom())) by {
                assert forall|k: K| #[trigger] outs@.dom().contains(k) == self@.dom().union(right@.dom()).contains(k) by {
                    assert(pl(k) == self@.get(k));
                    assert(pr(k) == right@.get(k));
                }
            }
            assert forall|k: K| #[trigger] outs@.dom().contains(k) && outs@[k].new_entry() is Some implies r.0@.get(
                outs@[k].new_entry()->Some_0.0,
            ) == Some(outs@[k].new_entry()->Some_0.1) by {
                assert(nl(outs@[k].new_entry()->Some_0.0) == Some(outs@[k].new_entry()->Some_0.1));
            }
            assert forall|s: S| #[trigger] r.0@.dom().contains(s) implies exists|k: K| #[trigger]
                outs@.dom().contains(k) && outs@[k].new_entry() is Some && outs@[k].new_entry()->Some_0.0 == s by {
                assert(nl(s) is Some);
            }
            assert(joint_transmuted_by(self@, right@, outs@, r.0@));
            assert forall|k: K| #[trigger] outs@.dom().contains(k) implies joint_transmute_gives(
                *both_op,
                *left_op,
                *right_op,
                k,
                self@.get(k),
                right@.get(k),
                outs@[k],
            ) by {
                assert(pl(k) == self@.get(k));
                assert(pr(k) == right@.get(k));
            }
            assert(pl =~= (|k: K| self@.get(k)));
            assert(pr =~= (|k: K| right@.get(k)));
            assert(res.reduced() == r.1);
        }
        r
    }
    /// `transform_with_transmuted` on this trie and `right`, whose values are of
    /// another type: `both_op` on the keys of both, `left_op` on the keys of this
    /// trie only, and `right_op` on the keys of `right` only, each new entry in
    /// the place of the entry it comes from; and the reduction of the values
    /// that the runs gave.
    pub fn transform_with_transmuted<
        W,
        R: Clone + Default,
        RO: Fn(&R, &R) -> R,
        B: Fn(&K, &V, &K, &W) -> MapTransformResult<V, R>,
        LF: Fn(&K, &V) -> MapTransformResult<V, R>,
        RF: Fn(&K, &W) -> MapTransmuteResult<K, V, R>,
    >(
        &self,
        right: &HashTrie<K, W, M>,
        reduce_op: &RO,
        both_op: &MapTransform<R, B>,
        left_op: &MapTransform<R, LF>,
        right_op: &MapTransmute<R, RF>,
    ) -> (r: (Self, R))
        requires
            transform_with_transmuted_accepts(*both_op, *left_op, *right_op, self@, right@),
            transform_with_transmuted_keeps_places::<K, V, W, R, RF, M>(*right_op, self@, right@),
            reduces_all(*reduce_op),
            self@.dom().union(right@.dom()).len() <= usize::MAX,
        ensures
            transform_with_transmuted_map(*both_op, *left_op, *right_op, self@, right@, r.0@),
            transform_transmute_reduced(*reduce_op, *both_op, *left_op, *right_op, self@, right@, r.1),
    {
        let ghost pl = node_lookup::<K, V, M>(self.root, 0);
        let ghost pr = node_lookup::<K, W, M>(right.root, 0);
        proof {
            use_type_invariant(self);
            use_type_invariant(right);
            assert forall|k: K| #[trigger] pl(k) == self@.get(k) by {
            }
            assert forall|k: K| #[trigger] pr(k) == right@.get(k) by {
            }
            assert(crate::node::keys_below::<K, V, W, M>(self.root, right.root, 0) == self@.dom().union(right@.dom()));
            assert forall|k: K|
                #![trigger pl(k)]
                #![trigger pr(k)]
                transform_with_transmuted_accepts_entry(*both_op, *left_op, *right_op, k, pl(k), pr(k)) by {
                assert(pl(k) == self@.get(k));
                assert(pr(k) == right@.get(k));
                if pl(k) is Some {
                    assert(self@.dom().contains(k));
                } else if pr(k) is Some {
                    assert(right@.dom().contains(k));
                }
            }
            assert forall|k: K, r: MapTransmuteResult<K, V, R>|
                #![trigger right_op.gives(k, pr(k)->Some_0, r)]
                pl(k) is None && pr(k) is Some && right_op.gives(k, pr(k)->Some_0, r) && r.new_entry() is Some implies M::hash_of(
                    r.new_entry()->Some_0.0,
                ) == M::hash_of(k) && pl(r.new_entry()->Some_0.0) is None by {
                assert(pl(k) == self@.get(k));
                assert(pr(k) == right@.get(k));
                assert(right@.dom().contains(k));
                assert(right_op.gives(k, right@[k], r));
                assert(pl(r.new_entry()->Some_0.0) == self@.get(r.new_entry()->Some_0.0));
            }
            assert forall|k1: K, k2: K, r1: MapTransmuteResult<K, V, R>, r2: MapTransmuteResult<K, V, R>|
                #![trigger right_op.gives(k1, pr(k1)->Some_0, r1), right_op.gives(k2, pr(k2)->Some_0, r2)]
                pl(k1) is None && pr(k1) is Some && pl(k2) is None && pr(k2) is Some && k1 != k2 && right_op.gives(
                    k1,
                    pr(k1)->Some_0,
                    r1,
                ) && right_op.gives(k2, pr(k2)->Some_0, r2) && r1.new_entry() is Some && r2.new_entry() is Some
                    implies r1.new_entry()->Some_0.0 != r2.new_entry()->Some_0.0 by {
                assert(pl(k1) == self@.get(k1));
                assert(pr(k1) == right@.get(k1));
                assert(pl(k2) == self@.get(k2));
                assert(pr(k2) == right@.get(k2));
                assert(right_op.gives(k1, right@[k1], r1));
                assert(right_op.gives(k2, right@[k2], r2));
            }
        }
        let (res, outs) = self.root.transform_with_transmuted::<M, W, R, RO, B, LF, RF>(
            &right.root,
            reduce_op,
            both_op,
            left_op,
            right_op,
            0,
        );
        let ghost new = res.node_after(self.root);
        let r = match res {
            TransformResult::Unchanged(red) => (Self::singleton(self.root.clone()), red),
            TransformResult::C(c, red) => (Self::singleton(MNode::C(c)), red),
            TransformResult::L(l, red) => (Self::singleton(MNode::L(l)), red),
            TransformResult::S(s, red) => (Self::singleton(MNode::S(s)), red),
            TransformResult::Removed(red) => (Self::new(), red),
        };
        proof {
            let nl = opt_lookup::<K, V, M>(new, 0);
            assert forall|k: K| #[trigger] r.0@.get(k) == nl(k) by {
            }
            assert(outs@.dom() =~= right@.dom().difference(self@.dom())) by {
                assert forall|k: K| #[trigger] outs@.dom().contains(k) == right@.dom().difference(self@.dom()).contains(k) by {
                    assert(pl(k) == self@.get(k));
                    assert(pr(k) == right@.get(k));
                }
            }
            assert forall|k: K| #[trigger] outs@.dom().contains(k) implies right_op.gives(k, right@[k], outs@[k]) by {
                assert(pr(k) == right@.get(k));
            }
            assert forall|k: K| #[trigger] self@.dom().contains(k) implies transform_with_transmuted_left_entry(
                *both_op,
                *left_op,
                k,
                self@[k],
                right@.get(k),
                r.0@.get(k),
            ) by {
                assert(pl(k) == self@.get(k));
                assert(pr(k) == right@.get(k));
                assert(nl(k) == r.0@.get(k));
            }
            assert forall|k: K| #[trigger] outs@.dom().contains(k) && outs@[k].new_entry() is Some implies r.0@.get(
                outs@[k].new_entry()->Some_0.0,
            ) == Some(outs@[k].new_entry()->Some_0.1) by {
                assert(nl(outs@[k].new_entry()->Some_0.0) == Some(outs@[k].new_entry()->Some_0.1));
            }
            assert forall|s: K| #[trigger] r.0@.dom().contains(s) && !self@.dom().contains(s) implies exists|k: K| #[trigger]
                outs@.dom().contains(k) && outs@[k].new_entry() is Some && outs@[k].new_entry()->Some_0.0 == s by {
                assert(nl(s) is Some);
                assert(pl(s) == self@.get(s));
            }
            assert(transform_with_transmuted_by(*both_op, *left_op, *right_op, self@, right@, outs@, r.0@));
            assert(node_lookup::<K, V, M>(self.root, 0) =~= (|k: K| self@.get(k)));
            assert(node_lookup::<K, W, M>(right.root, 0) =~= (|k: K| right@.get(k)));
            assert(res.reduced() == r.1);
        }
        r
    }

    /// `transmute_with_transformed` on this trie and `right`, whose values are of
    /// another type: `both_op` on the keys of both, `left_op` on the keys of this
    /// trie only, each new entry in the place of the entry it comes from, and
    /// `right_op` on the keys of `right` only; the result has the values of
    /// `right`'s type. It is `transform_with_transmuted` run from `right`'s side
    /// with `both_op` flipped.
    pub fn transmute_with_transformed<
        W,
        R: Clone + Default,
        RO: Fn(&R, &R) -> R,
        B: Fn(&K, &V, &K, &W) -> MapTransformResult<W, R>,
        LF: Fn(&K, &V) -> MapTransmuteResult<K, W, R>,
        RF: Fn(&K, &W) -> MapTransformResult<W, R>,
    >(
        &self,
        right: &HashTrie<K, W, M>,
        reduce_op: &RO,
        both_op: &MapTransform<R, B>,
        left_op: &MapTransmute<R, LF>,
        right_op: &MapTransform<R, RF>,
    ) -> (r: (HashTrie<K, W, M>, R))
        requires
            transmute_with_transformed_accepts(*both_op, *left_op, *right_op, self@, right@),
            transmute_with_transformed_keeps_places::<K, V, W, R, LF, M>(*left_op, self@, right@),
            reduces_all(*reduce_op),
            self@.dom().union(right@.dom()).len() <= usize::MAX,
        ensures
            transmute_with_transformed_map(*both_op, *left_op, *right_op, self@, right@, r.0@),
            transmute_transform_reduced(*reduce_op, *both_op, *left_op, *right_op, self@, right@, r.1),
    {
        let flipped = both_op.flip_transmute_transform::<K, V, K, W>();
        proof {
            assert(right@.dom().union(self@.dom()) =~= self@.dom().union(right@.dom()));
            assert forall|k: K|
                #![trigger right@.dom().contains(k)]
                #![trigger self@.dom().contains(k)]
                transform_with_transmuted_accepts_entry(flipped, *right_op, *left_op, k, right@.get(k), self@.get(k)) by {
                assert(transmute_with_transformed_accepts_entry(*both_op, *left_op, *right_op, k, self@.get(k), right@.get(k)));
                if right@.dom().contains(k) && self@.dom().contains(k) {
                    if let MapTransform::Generic(f) = *both_op {
                        assert(f.requires((&k, &self@[k], &k, &right@[k])));
                    }
                }
            }
        }
        let r = right.transform_with_transmuted(self, reduce_op, &flipped, right_op, left_op);
        proof {
            let outs = choose|outcomes: Map<K, MapTransmuteResult<K, W, R>>|
                #![trigger transform_with_transmuted_by(flipped, *right_op, *left_op, right@, self@, outcomes, r.0@)]
                transform_with_transmuted_by(flipped, *right_op, *left_op, right@, self@, outcomes, r.0@);
            assert forall|k: K| #[trigger] right@.dom().contains(k) implies transmute_with_transformed_right_entry(
                *both_op,
                *right_op,
                k,
                right@[k],
                self@.get(k),
                r.0@.get(k),
            ) by {
                assert(transform_with_transmuted_left_entry(flipped, *right_op, k, right@[k], self@.get(k), r.0@.get(k)));
                if self@.dom().contains(k) {
                    let v = self@[k];
                    let w = right@[k];
                    let t = choose|t: MapTransformResult<W, R>| #[trigger] flipped.gives_transform_transmute(k, w, k, v, t)
                        && t.applied_to(w) == r.0@.get(k);
                    if let MapTransform::Generic(g) = flipped {
                        assert(g.ensures((&k, &w, &k, &v), t));
                    }
                    assert(both_op.gives_transmute_transform(k, v, k, w, t));
                }
            }
            assert(transmute_with_transformed_by(*both_op, *left_op, *right_op, self@, right@, outs, r.0@));
            let sl = |k: K| self@.get(k);
            let rl = |k: K| right@.get(k);
            let fpred = transform_transmute_pred(flipped, *right_op, *left_op);
            let tpred = transmute_transform_pred(*both_op, *left_op, *right_op);
            let t = choose|t: Reduction<K, R>|
                #![trigger t.combines(*reduce_op)]
                reduction_fits(
                    t,
                    *reduce_op,
                    lookup_keys(rl).union(lookup_keys(sl)),
                    pair_entries_ok(fpred, rl, sl),
                    transform_transmute_others(*right_op, *left_op),
                ) && t.value() == r.1;
            assert(lookup_keys(rl).union(lookup_keys(sl)) =~= lookup_keys(sl).union(lookup_keys(rl)));
            assert forall|k: K, y: R|
                lookup_keys(rl).union(lookup_keys(sl)).contains(k) && #[trigger] pair_entries_ok(fpred, rl, sl)(k, y) implies #[trigger] pair_entries_ok(
                tpred,
                sl,
                rl,
            )(k, y) by {
                if self@.dom().contains(k) && right@.dom().contains(k) {
                    let v = self@[k];
                    let w = right@[k];
                    match flipped {
                        MapTransform::Generic(g) => {
                            let res = choose|res: MapTransformResult<W, R>| #[trigger] g.ensures((&k, &w, &k, &v), res) && res.reduced() == y;
                            if let MapTransform::Generic(f) = *both_op {
                                assert(f.ensures((&k, &v, &k, &w), res));
                            }
                        },
                        MapTransform::Unchanged(x2) => {
                            if let MapTransform::Unchanged(x1) = *both_op {
                                assert(cloned(x1, x2));
                                assert(cloned(x2, y));
                            }
                        },
                        MapTransform::Removed(x2) => {
                            if let MapTransform::Removed(x1) = *both_op {
                                assert(cloned(x1, x2));
                                assert(cloned(x2, y));
                            }
                        },
                    }
                }
            }
            assert forall|y: R| #[trigger] transform_transmute_others(*right_op, *left_op)(y) implies transmute_transform_others(
                *left_op,
                *right_op,
            )(y) by {
            }
            lemma_fits_weaken(
                t,
                *reduce_op,
                lookup_keys(rl).union(lookup_keys(sl)),
                lookup_keys(sl).union(lookup_keys(rl)),
                pair_entries_ok(fpred, rl, sl),
                pair_entries_ok(tpred, sl, rl),
                transform_transmute_others(*right_op, *left_op),
                transmute_transform_others(*left_op, *right_op),
            );
        }
        r
    }
}

} // verus!
