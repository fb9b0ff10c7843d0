//! The nodes of the hash array mapped trie.
//!
//! - An `SNode` holds one entry.
//! - An `LNode` holds two or more entries whose keys have the same hash, as a list.
//! - A `CNode` holds a bitmap and one child for each set bit; at depth `d`, the
//!   child at bit `p` holds the entries whose hash has `p` as its chunk for `d`.
//!
//! A node at depth `d` is viewed through `MNode::lookup`, which follows the hash
//! of the key down the trie, as `find` does.
use vstd::prelude::*;
use std::sync::Arc;
use crate::bit_indexed_array::{BitIndexedArray, new_bit_indexed_array};
use crate::bitseq::{
    count_set, is_single, only_bit, rank, single_pos, lemma_count_set_bit, lemma_count_split, lemma_count_zero,
    lemma_only_bit, lemma_only_bit_rank, lemma_rank_lt_count,
};
use crate::flag::{Flag, hash_chunk, max_depth, lemma_chunks_determine_hash, lemma_hash_chunk_range};
use crate::hashing::{HasherBv, Key};
use crate::results::{MapJointTransformResult, MapTransformResult, MapTransmuteResult, SetTransmuteResult};
use crate::traits::{BitInsert, BitIndex, BitWord, NthBit};
use crate::transformations::{
    MapJointTransform, MapTransform, MapTransmute, SetTransmute, joint_transformed_entry, joint_transmute_accepts_entry,
    joint_transmute_gives, keyed_by, keyed_entry, reduces_all,
    set_transmuted_entry, transform_with_transfuted_accepts_entry, transform_with_transfuted_entry,
    transform_with_transmuted_accepts_entry, transform_with_transmuted_left_entry, transformed_entry,
    transform_entry_reduced, transform_others_ok, transmute_entry_reduced,
    transmute_entries_ok, transmute_others_ok, transmute_reduced_at, lookup_keys,
    joint_entries_ok, joint_others_ok, joint_reduced_at, pair_entries_ok, pair_reduced_at,
    transfuted_pred, transfuted_others, joint_transmute_pred, joint_transmute_others,
    transform_transmute_pred, transform_transmute_others,
};
use vstd::pervasive::cloned;
use crate::reduction::{
    Reduction, lemma_fits_add_entry, lemma_fits_both, lemma_fits_entry, lemma_fits_other, lemma_fits_weaken, reduction_fits,
};

verus! {

broadcast use vstd::set_lib::group_set_properties;

// ----------------------------------------------------------------------------
// Specification helpers
// ----------------------------------------------------------------------------

/// The first value stored for `k` in a list of entries.
pub open spec fn entries_lookup<K, V>(es: Seq<(K, V)>, k: K) -> Option<V>
    decreases es.len(),
{
    if es.len() == 0 {
        None
    } else if es[0].0 == k {
        Some(es[0].1)
    } else {
        entries_lookup(es.drop_first(), k)
    }
}

/// The keys of a list of entries.
pub open spec fn entries_keys<K, V>(es: Seq<(K, V)>) -> Seq<K> {
    es.map_values(|e: (K, V)| e.0)
}

/// `h1` and `h2` select the same child at every depth below `d`.
pub open spec fn agrees_below(h1: u64, h2: u64, d: nat) -> bool {
    forall|j: nat| j < d ==> #[trigger] hash_chunk(h1, j) == hash_chunk(h2, j)
}

/// Hashes that agree below depth 13 are equal.
pub proof fn lemma_agree_all(h1: u64, h2: u64, d: nat)
    requires
        agrees_below(h1, h2, d),
        d > max_depth(),
    ensures
        h1 == h2,
{
    assert forall|j: nat| j <= max_depth() implies #[trigger] hash_chunk(h1, j) == hash_chunk(h2, j) by {
        assert(j < d);
    }
    lemma_chunks_determine_hash(h1, h2);
}

/// A list finds a key exactly when it holds the key.
pub proof fn lemma_entries_lookup_some<K, V>(es: Seq<(K, V)>, k: K)
    ensures
        entries_lookup(es, k) is Some <==> entries_keys(es).contains(k),
        entries_lookup(es, k) is Some ==> exists|i: int| 0 <= i < es.len() && es[i].0 == k && es[i].1 == entries_lookup(es, k)->Some_0,
    decreases es.len(),
{
    if es.len() > 0 {
        lemma_entries_lookup_some(es.drop_first(), k);
        let ks = entries_keys(es);
        let ks2 = entries_keys(es.drop_first());
        assert(ks2 =~= ks.drop_first());
        if es[0].0 == k {
            assert(ks[0] == k);
        } else {
            if ks.contains(k) {
                let i = choose|i: int| 0 <= i < ks.len() && ks[i] == k;
                assert(i > 0);
                assert(ks2[i - 1] == k);
            }
            if entries_lookup(es, k) is Some {
                let i = choose|i: int| 0 <= i < es.drop_first().len() && es.drop_first()[i].0 == k && es.drop_first()[i].1 == entries_lookup(es, k)->Some_0;
                assert(es[i + 1] == es.drop_first()[i]);
            }
        }
    }
}

/// With distinct keys, the value found for a key is the one stored with it.
pub proof fn lemma_entries_lookup_at<K, V>(es: Seq<(K, V)>, i: int)
    requires
        0 <= i < es.len(),
        entries_keys(es).no_duplicates(),
    ensures
        entries_lookup(es, es[i].0) == Some(es[i].1),
    decreases es.len(),
{
    if i > 0 {
        let ks = entries_keys(es);
        assert(ks[0] != ks[i]);
        assert(entries_keys(es.drop_first()) =~= ks.drop_first());
        lemma_entries_lookup_at(es.drop_first(), i - 1);
    }
}

// ----------------------------------------------------------------------------
// SNode
// ----------------------------------------------------------------------------

/// `SNode` holds one entry.
pub struct SNode<K, V> {
    key: K,
    value: V,
}

impl<K, V> SNode<K, V> {
    pub closed spec fn spec_key(&self) -> K {
        self.key
    }

    pub closed spec fn spec_value(&self) -> V {
        self.value
    }

    /// A new node holding one entry.
    pub fn new(key: K, value: V) -> (r: Arc<Self>)
        ensures
            r.spec_key() == key,
            r.spec_value() == value,
    {
        Arc::new(SNode { key, value })
    }

    /// The key of the entry.
    pub fn key(&self) -> (r: &K)
        ensures
            *r == self.spec_key(),
    {
        &self.key
    }

    /// The value of the entry.
    pub fn value(&self) -> (r: &V)
        ensures
            *r == self.spec_value(),
    {
        &self.value
    }
}

impl<K: Key, V> SNode<K, V> {
    /// The entry, if its key is `key`.
    pub fn find<'a>(&'a self, key: &K) -> (r: Option<(&'a K, &'a V)>)
        ensures
            match r {
                Some((k, v)) => self.spec_key() == *key && *k == *key && *v == self.spec_value(),
                None => self.spec_key() != *key,
            },
    {
        if self.key.key_eq(key) {
            Some((&self.key, &self.value))
        } else {
            None
        }
    }
}

// ----------------------------------------------------------------------------
// LNode
// ----------------------------------------------------------------------------

/// The rest of a list of colliding entries.
pub enum LNodeNext<K, V> {
    L(Arc<LNode<K, V>>),
    S(Arc<SNode<K, V>>),
}

/// `LNode` holds two or more entries whose keys have the same hash.
pub struct LNode<K, V> {
    entry: Arc<SNode<K, V>>,
    next: LNodeNext<K, V>,
    size: usize,
}

impl<K, V> LNodeNext<K, V> {
    /// The entries, in list order.
    pub open spec fn entries(&self) -> Seq<(K, V)>
        decreases self,
    {
        match self {
            LNodeNext::L(l) => l.entries(),
            LNodeNext::S(s) => seq![(s.spec_key(), s.spec_value())],
        }
    }

    /// Every list node below holds its own number of entries.
    pub open spec fn sizes_ok(&self) -> bool
        decreases self,
    {
        match self {
            LNodeNext::L(l) => l.sizes_ok(),
            LNodeNext::S(_) => true,
        }
    }

    /// The number of entries.
    pub fn size(&self) -> (r: usize)
        requires
            self.sizes_ok(),
        ensures
            r == self.entries().len(),
    {
        match self {
            LNodeNext::L(l) => l.size,
            LNodeNext::S(_) => 1,
        }
    }

    /// The key of the first entry.
    pub fn key(&self) -> (r: &K)
        ensures
            *r == self.entries()[0].0,
    {
        match self {
            LNodeNext::L(l) => l.key(),
            LNodeNext::S(s) => s.key(),
        }
    }
}

impl<K, V> LNode<K, V> {
    /// The entries, in list order.
    pub closed spec fn entries(&self) -> Seq<(K, V)>
        decreases self,
    {
        seq![(self.entry.spec_key(), self.entry.spec_value())] + self.next.entries()
    }

    /// Every list node holds its own number of entries.
    pub closed spec fn sizes_ok(&self) -> bool
        decreases self,
    {
        &&& self.size == self.entries().len()
        &&& self.next.sizes_ok()
    }

    pub closed spec fn spec_size(&self) -> nat {
        self.size as nat
    }

    /// A list node holds at least two entries.
    pub proof fn lemma_len(&self)
        ensures
            self.entries().len() >= 2,
        decreases self,
    {
        match &self.next {
            LNodeNext::L(l) => l.lemma_len(),
            LNodeNext::S(_) => {},
        }
    }

    /// The key of the first entry.
    pub fn key(&self) -> (r: &K)
        ensures
            *r == self.entries()[0].0,
    {
        self.entry.key()
    }

    /// The value of the first entry.
    pub fn value(&self) -> (r: &V)
        ensures
            *r == self.entries()[0].1,
    {
        self.entry.value()
    }

    /// The number of entries.
    pub fn size(&self) -> (r: usize)
        requires
            self.sizes_ok(),
        ensures
            r == self.entries().len(),
    {
        self.size
    }

    /// A new list: an entry in front of a list.
    pub fn new(entry: Arc<SNode<K, V>>, next: LNodeNext<K, V>) -> (r: Arc<Self>)
        requires
            next.sizes_ok(),
            next.entries().len() < usize::MAX,
        ensures
            r.sizes_ok(),
            r.entries() == seq![(entry.spec_key(), entry.spec_value())] + next.entries(),
    {
        let size = 1 + next.size();
        Arc::new(LNode { entry, next, size })
    }
}

impl<K: Key, V> LNode<K, V> {
    /// The first entry with the key `key`.
    pub fn find<'a>(&'a self, key: &K) -> (r: Option<(&'a K, &'a V)>)
        ensures
            match r {
                Some((k, v)) => *k == *key && entries_lookup(self.entries(), *key) == Some(*v),
                None => entries_lookup(self.entries(), *key) is None,
            },
        decreases self,
    {
        proof {
            assert(self.entries().drop_first() =~= self.next.entries());
            assert(self.entries()[0] == (self.entry.spec_key(), self.entry.spec_value()));
            reveal_with_fuel(entries_lookup, 3);
        }
        match self.entry.find(key) {
            Some(found) => Some(found),
            None => match &self.next {
                LNodeNext::L(l) => l.find(key),
                LNodeNext::S(s) => {
                    proof {
                        assert(self.next.entries().drop_first().len() == 0);
                    }
                    s.find(key)
                },
            },
        }
    }
}

// ----------------------------------------------------------------------------
// CNode and MNode
// ----------------------------------------------------------------------------

/// `CNode` holds a bitmap of the chunks present at its depth and one child for
/// each, and the number of entries below it.
pub struct CNode<K, V> {
    nodes: Arc<BitIndexedArray<u32, MNode<K, V>, usize>>,
}

/// A node of the trie.
pub enum MNode<K, V> {
    C(CNode<K, V>),
    L(Arc<LNode<K, V>>),
    S(Arc<SNode<K, V>>),
}

impl<K, V> CNode<K, V> {
    /// The children, by the position of their bit.
    pub closed spec fn children(self) -> Map<int, MNode<K, V>> {
        self.nodes.entries()
    }

    /// The number of entries, as the node records it.
    pub closed spec fn spec_size(&self) -> nat {
        self.nodes.spec_extra() as nat
    }

    /// The bitmap of the children.
    pub closed spec fn child_bits(&self) -> Seq<bool> {
        self.nodes.spec_bits().bit_seq()
    }

    /// The children, in the order of their bits.
    pub closed spec fn child_values(&self) -> Seq<MNode<K, V>> {
        self.nodes.spec_values()
    }

    /// The number of entries, as the node records it.
    pub fn size(&self) -> (r: usize)
        ensures
            r == self.spec_size(),
    {
        *self.nodes.extra()
    }
}

impl<K, V> Clone for CNode<K, V> {
    fn clone(&self) -> (r: Self)
        ensures
            r == *self,
    {
        CNode { nodes: self.nodes.clone() }
    }
}

impl<K, V> Clone for MNode<K, V> {
    fn clone(&self) -> (r: Self)
        ensures
            r == *self,
    {
        match self {
            MNode::C(c) => MNode::C(c.clone()),
            MNode::L(l) => MNode::L(l.clone()),
            MNode::S(s) => MNode::S(s.clone()),
        }
    }
}

impl<K, V> MNode<K, V> {
    /// The value that the trie rooted here at depth `d` holds for `k`: the hash of
    /// `k` selects the child of each `CNode` on the way down.
    pub closed spec fn lookup<M: HasherBv<u64, K>>(self, k: K, d: nat) -> Option<V>
        decreases 13 - d,
    {
        match self {
            MNode::S(s) => if s.spec_key() == k {
                Some(s.spec_value())
            } else {
                None
            },
            MNode::L(l) => entries_lookup(l.entries(), k),
            MNode::C(c) => if d > max_depth() {
                None
            } else {
                let p = hash_chunk(M::hash_of(k), d);
                if c.children().contains_key(p) {
                    c.children()[p].lookup::<M>(k, d + 1)
                } else {
                    None
                }
            },
        }
    }

    /// The entries of a list node.
    pub closed spec fn list_entries(self) -> Seq<(K, V)> {
        match self {
            MNode::L(l) => l.entries(),
            _ => Seq::empty(),
        }
    }

    /// The map that the trie rooted here at depth `d` holds.
    pub open spec fn view_at<M: HasherBv<u64, K>>(self, d: nat) -> Map<K, V> {
        Map::new(|k: K| self.lookup::<M>(k, d) is Some, |k: K| self.lookup::<M>(k, d)->Some_0)
    }

    /// The number of entries, as the node records it.
    pub closed spec fn size_of(self) -> nat {
        match self {
            MNode::S(_) => 1,
            MNode::L(l) => l.spec_size(),
            MNode::C(c) => c.spec_size(),
        }
    }

    /// The node is well formed at depth `d`: list nodes hold distinct keys of one
    /// hash, every child of a `CNode` holds only keys of its chunk, and the sizes
    /// recorded are the numbers of entries.
    pub closed spec fn wf<M: HasherBv<u64, K>>(self, d: nat) -> bool
        decreases 13 - d,
    {
        match self {
            MNode::S(_) => true,
            MNode::L(l) => {
                &&& l.sizes_ok()
                &&& entries_keys(l.entries()).no_duplicates()
                &&& l.entries().len() >= 2
                &&& forall|i: int|
                    0 <= i < l.entries().len() ==> #[trigger] M::hash_of(l.entries()[i].0) == M::hash_of(
                        l.entries()[0].0,
                    )
            },
            MNode::C(c) => {
                &&& d <= max_depth()
                &&& self.view_at::<M>(d).dom().finite()
                &&& c.spec_size() == self.view_at::<M>(d).len()
                &&& forall|p: int| #[trigger]
                    c.children().contains_key(p) ==> {
                        &&& c.children()[p].wf::<M>(d + 1)
                        &&& forall|k: K| #[trigger]
                            c.children()[p].lookup::<M>(k, d + 1) is Some ==> hash_chunk(
                                M::hash_of(k),
                                d,
                            ) == p
                    }
            },
        }
    }
}

impl<K: Key, V> CNode<K, V> {
    /// The entry for `key`, found in the child that the hash selects at `depth`.
    pub fn find<'a, M: HasherBv<u64, K>>(&'a self, key: &K, hash: u64, depth: usize) -> (r: Option<(&'a K, &'a V)>)
        requires
            hash == M::hash_of(*key),
            depth <= 13,
        ensures
            match r {
                Some((k, v)) => *k == *key && MNode::C(*self).lookup::<M>(*key, depth as nat) == Some(*v),
                None => MNode::C(*self).lookup::<M>(*key, depth as nat) is None,
            },
        decreases 13 - depth, 0nat,
    {
        let flag = match Flag::new_at_depth(hash, depth) {
            Some(flag) => flag,
            None => return None,
        };
        proof {
            lemma_hash_chunk_range(hash, depth as nat);
            lemma_only_bit(32, hash_chunk(hash, depth as nat));
        }
        match self.nodes.at(flag.flag()) {
            Ok(node) => node.find::<M>(key, hash, depth + 1),
            Err(_) => None,
        }
    }
}

impl<K: Key, V> MNode<K, V> {
    /// The entry for `key` in the trie rooted here at `depth`.
    pub fn find<'a, M: HasherBv<u64, K>>(&'a self, key: &K, hash: u64, depth: usize) -> (r: Option<(&'a K, &'a V)>)
        requires
            hash == M::hash_of(*key),
            depth <= 13,
        ensures
            match r {
                Some((k, v)) => *k == *key && self.lookup::<M>(*key, depth as nat) == Some(*v),
                None => self.lookup::<M>(*key, depth as nat) is None,
            },
        decreases 13 - depth, 1nat,
    {
        match self {
            MNode::C(c) => c.find::<M>(key, hash, depth),
            MNode::L(l) => l.find(key),
            MNode::S(s) => s.find(key),
        }
    }
}

/// Every key held below `node` at depth `d` has a hash that agrees with `hash`
/// below `d`: the keys lie on the path that `hash` selects.
pub open spec fn keys_agree<K, V, M: HasherBv<u64, K>>(node: MNode<K, V>, hash: u64, d: nat) -> bool {
    forall|k: K| #[trigger] node.lookup::<M>(k, d) is Some ==> agrees_below(M::hash_of(k), hash, d)
}

impl<K, V> MNode<K, V> {
    /// A node records the number of entries it holds, and holds finitely many.
    pub proof fn lemma_size_view<M: HasherBv<u64, K>>(self, d: nat)
        requires
            self.wf::<M>(d),
        ensures
            self.view_at::<M>(d).dom().finite(),
            self.size_of() == self.view_at::<M>(d).len(),
    {
        match self {
            MNode::S(s) => {
                assert(self.view_at::<M>(d).dom() =~= set![s.spec_key()]);
            },
            MNode::L(_) => {
                let es = self.list_entries();
                let ks = entries_keys(es);
                assert forall|k: K| #[trigger] self.view_at::<M>(d).dom().contains(k) <==> ks.to_set().contains(k) by {
                    lemma_entries_lookup_some(es, k);
                }
                assert(self.view_at::<M>(d).dom() =~= ks.to_set());
                ks.unique_seq_to_set();
            },
            MNode::C(c) => {},
        }
    }

    /// The entries of a child of a well-formed `CNode` are entries of the `CNode`,
    /// and lie on the path of the child's chunk.
    pub proof fn lemma_child<M: HasherBv<u64, K>>(self, d: nat, p: int)
        requires
            self.wf::<M>(d),
            self is C,
            self->C_0.children().contains_key(p),
        ensures
            d <= max_depth(),
            self->C_0.children()[p].wf::<M>(d + 1),
            forall|k: K| #[trigger]
                self->C_0.children()[p].lookup::<M>(k, d + 1) is Some ==> hash_chunk(M::hash_of(k), d) == p
                    && self.lookup::<M>(k, d) == self->C_0.children()[p].lookup::<M>(k, d + 1),
            forall|k: K| hash_chunk(M::hash_of(k), d) == p ==> #[trigger] self.lookup::<M>(k, d)
                == self->C_0.children()[p].lookup::<M>(k, d + 1),
    {
        let c = self->C_0;
        assert(c.children().contains_key(p));
    }

    /// A child of a `CNode` on the path of `hash` keeps the agreement one level deeper.
    pub proof fn lemma_child_agrees<M: HasherBv<u64, K>>(self, d: nat, hash: u64)
        requires
            self.wf::<M>(d),
            self is C,
            keys_agree::<K, V, M>(self, hash, d),
            self->C_0.children().contains_key(hash_chunk(hash, d)),
        ensures
            keys_agree::<K, V, M>(self->C_0.children()[hash_chunk(hash, d)], hash, d + 1),
    {
        let p = hash_chunk(hash, d);
        let child = self->C_0.children()[p];
        self.lemma_child::<M>(d, p);
        assert forall|k: K| #[trigger] child.lookup::<M>(k, d + 1) is Some implies agrees_below(
            M::hash_of(k),
            hash,
            d + 1,
        ) by {
            assert(self.lookup::<M>(k, d) is Some);
            assert(agrees_below(M::hash_of(k), hash, d));
            assert forall|j: nat| j < d + 1 implies #[trigger] hash_chunk(M::hash_of(k), j) == hash_chunk(hash, j) by {
                if j < d {
                    assert(hash_chunk(M::hash_of(k), j) == hash_chunk(hash, j));
                }
            }
        }
    }
}

impl<K, V> MNode<K, V> {
    /// The hash of the keys of a single-entry or list node.
    pub closed spec fn flat_hash<M: HasherBv<u64, K>>(self) -> u64 {
        match self {
            MNode::S(s) => M::hash_of(s.spec_key()),
            MNode::L(l) => M::hash_of(l.entries()[0].0),
            MNode::C(_) => 0,
        }
    }

    /// A single-entry or list node holds keys of one hash, whatever the depth.
    pub proof fn lemma_flat<M: HasherBv<u64, K>>(self, d: nat, e: nat)
        requires
            self is S || self is L,
            self.wf::<M>(d),
        ensures
            self.wf::<M>(e),
            forall|k: K| #[trigger] self.lookup::<M>(k, d) == self.lookup::<M>(k, e),
            self.view_at::<M>(d) == self.view_at::<M>(e),
            forall|k: K| #[trigger] self.lookup::<M>(k, d) is Some ==> M::hash_of(k) == self.flat_hash::<M>(),
    {
        assert(self.view_at::<M>(d) =~= self.view_at::<M>(e));
        if self is L {
            let es = self.list_entries();
            assert forall|k: K| #[trigger] self.lookup::<M>(k, d) is Some implies M::hash_of(k) == self.flat_hash::<M>() by {
                lemma_entries_lookup_some(es, k);
                let i = choose|i: int| 0 <= i < es.len() && es[i].0 == k && es[i].1 == entries_lookup(es, k)->Some_0;
                assert(M::hash_of(es[i].0) == M::hash_of(es[0].0));
            }
        }
    }

    /// The number of entries, as the node records it.
    pub fn size(&self) -> (r: usize)
        ensures
            r == self.size_of(),
    {
        match self {
            MNode::C(c) => c.size(),
            MNode::L(l) => l.size,
            MNode::S(_) => 1,
        }
    }
}

impl<K, V> MNode<K, V> {
    /// An empty `CNode`: the root of an empty trie.
    pub fn empty<M: HasherBv<u64, K>>() -> (r: Self)
        ensures
            r.wf::<M>(0),
            r.view_at::<M>(0) == Map::<K, V>::empty(),
    {
        let r = MNode::C(CNode::new(crate::bit_indexed_array::default_bit_indexed_array::<u32, MNode<K, V>, usize>()));
        assert(r.view_at::<M>(0) =~= Map::<K, V>::empty());
        r
    }
}

impl<K, V> CNode<K, V> {
    /// A node over a bit-indexed array of children whose extra value is the size.
    pub fn new(nodes: BitIndexedArray<u32, MNode<K, V>, usize>) -> (r: Self)
        ensures
            r.children() == nodes.entries(),
            r.spec_size() == nodes.spec_extra(),
    {
        CNode { nodes: Arc::new(nodes) }
    }
}

impl<K: Key, V> CNode<K, V> {
    /// A `CNode` at the flags' depth holding two single-entry or list nodes of
    /// different hashes, with as many `CNode`s below it as their hashes share chunks.
    pub fn lift_to_cnode_and_insert<M: HasherBv<u64, K>>(
        this: MNode<K, V>,
        this_flag: Flag,
        right: MNode<K, V>,
        right_flag: Flag,
    ) -> (r: Self)
        requires
            this is S || this is L,
            right is S || right is L,
            this.wf::<M>(0),
            right.wf::<M>(0),
            this_flag.wf(),
            right_flag.wf(),
            this_flag.spec_depth() == right_flag.spec_depth(),
            this_flag.spec_hash_value() == this.flat_hash::<M>(),
            right_flag.spec_hash_value() == right.flat_hash::<M>(),
            this_flag.spec_hash_value() != right_flag.spec_hash_value(),
            agrees_below(this_flag.spec_hash_value(), right_flag.spec_hash_value(), this_flag.spec_depth()),
            this.size_of() + right.size_of() <= usize::MAX,
        ensures
            MNode::C(r).wf::<M>(this_flag.spec_depth()),
            forall|k: K| #[trigger]
                MNode::C(r).lookup::<M>(k, this_flag.spec_depth()) == if this.lookup::<M>(k, 0) is Some {
                    this.lookup::<M>(k, 0)
                } else {
                    right.lookup::<M>(k, 0)
                },
            forall|k: K| #[trigger] this.lookup::<M>(k, 0) is Some ==> right.lookup::<M>(k, 0) is None,
        decreases 13 - this_flag.spec_depth(),
    {
        let ghost d = this_flag.spec_depth();
        let ghost h1 = this_flag.spec_hash_value();
        let ghost h2 = right_flag.spec_hash_value();
        let ghost p1 = hash_chunk(h1, d);
        let ghost p2 = hash_chunk(h2, d);
        proof {
            this.lemma_flat::<M>(0, d);
            right.lemma_flat::<M>(0, d);
            this.lemma_flat::<M>(0, d + 1);
            right.lemma_flat::<M>(0, d + 1);
            this.lemma_size_view::<M>(0);
            right.lemma_size_view::<M>(0);
            lemma_hash_chunk_range(h1, d);
            lemma_hash_chunk_range(h2, d);
            lemma_only_bit(32, p1);
            lemma_only_bit(32, p2);
            if d > max_depth() {
                lemma_agree_all(h1, h2, d);
            }
        }
        let size = this.size() + right.size();
        let ghost vt = this.view_at::<M>(0);
        let ghost vr = right.view_at::<M>(0);
        proof {
            assert(vt.dom().disjoint(vr.dom()));
            vstd::map_lib::lemma_disjoint_union_size(vt, vr);
            assert(vt.union_prefer_right(vr).dom() =~= vt.dom() + vr.dom());
        }
        if this_flag.flag().word_eq(&right_flag.flag()) {
            proof {
                assert(only_bit(32, p1)[p1]);
                assert(p1 == p2);
                assert forall|j: nat| j < d + 1 implies #[trigger] hash_chunk(h1, j) == hash_chunk(h2, j) by {
                    if j < d {
                        assert(hash_chunk(h1, j) == hash_chunk(h2, j));
                    }
                }
                if d + 1 > max_depth() {
                    lemma_agree_all(h1, h2, d + 1);
                }
            }
            let next_this = match this_flag.next() {
                Some(f) => f,
                None => {
                    proof {
                        assert(false);
                    }
                    return CNode::new(crate::bit_indexed_array::default_bit_indexed_array::<u32, MNode<K, V>, usize>());
                },
            };
            let next_right = match right_flag.next() {
                Some(f) => f,
                None => {
                    proof {
                        assert(false);
                    }
                    return CNode::new(crate::bit_indexed_array::default_bit_indexed_array::<u32, MNode<K, V>, usize>());
                },
            };
            let child = Self::lift_to_cnode_and_insert::<M>(this, next_this, right, next_right);
            let ghost child_node = MNode::C(child);
            let mut values: Vec<MNode<K, V>> = Vec::new();
            values.push(MNode::C(child));
            proof {
                lemma_only_bit_rank(32, p1, p1);
                MNode::C(child).lemma_size_view::<M>(d + 1);
                assert(child_node.view_at::<M>(d + 1) =~= vt.union_prefer_right(vr));
            }
            let nodes = match new_bit_indexed_array(this_flag.flag(), values, size) {
                Ok(nodes) => nodes,
                Err(_) => {
                    proof {
                        assert(false);
                    }
                    return CNode::new(crate::bit_indexed_array::default_bit_indexed_array::<u32, MNode<K, V>, usize>());
                },
            };
            let r = CNode::new(nodes);
            proof {
                assert(r.children().dom() =~= set![p1]);
                assert(r.children()[p1] == child_node);
                assert forall|k: K| #[trigger]
                    MNode::C(r).lookup::<M>(k, d) == if this.lookup::<M>(k, 0) is Some {
                        this.lookup::<M>(k, 0)
                    } else {
                        right.lookup::<M>(k, 0)
                    } by {
                    if hash_chunk(M::hash_of(k), d) != p1 {
                        assert(this.lookup::<M>(k, d) is None);
                        assert(right.lookup::<M>(k, d) is None);
                    } else {
                        assert(MNode::C(r).lookup::<M>(k, d) == child_node.lookup::<M>(k, d + 1));
                        assert(child_node.lookup::<M>(k, next_this.spec_depth()) == if this.lookup::<M>(k, 0) is Some {
                            this.lookup::<M>(k, 0)
                        } else {
                            right.lookup::<M>(k, 0)
                        });
                    }
                }
                assert(MNode::C(r).view_at::<M>(d) =~= vt.union_prefer_right(vr));
                assert(MNode::C(r).wf::<M>(d));
            }
            r
        } else {
            proof {
                if p1 == p2 {
                    BitWord::lemma_bits_determine(this_flag.spec_flag(), right_flag.spec_flag());
                }
                assert(only_bit(32, p1)[p2] == false);
                assert(p1 != p2);
            }
            let flags = match this_flag.flag().bit_insert(right_flag.flag()) {
                Ok(flags) => flags,
                Err(_) => {
                    proof {
                        assert(false);
                    }
                    return CNode::new(crate::bit_indexed_array::default_bit_indexed_array::<u32, MNode<K, V>, usize>());
                },
            };
            let ghost bs = only_bit(32, p1);
            proof {
                crate::bitseq::lemma_count_set_bit(bs, p2, p1);
                crate::bitseq::lemma_count_set_bit(bs, p2, 32);
                lemma_only_bit_rank(32, p1, p1);
                lemma_only_bit_rank(32, p1, p2);
                lemma_only_bit_rank(32, p1, 32);
                crate::bitseq::lemma_count_set_bit(bs, p2, p2);
                assert(bs.take(32) =~= bs);
                assert(flags.bit_seq().take(32) =~= flags.bit_seq());
            }
            let index = match flags.bit_index(this_flag.flag()) {
                Ok(index) => index,
                Err(_) => {
                    proof {
                        assert(false);
                    }
                    return CNode::new(crate::bit_indexed_array::default_bit_indexed_array::<u32, MNode<K, V>, usize>());
                },
            };
            let values = if index == 0 {
                vec![this, right]
            } else {
                vec![right, this]
            };
            let nodes = match new_bit_indexed_array(flags, values, size) {
                Ok(nodes) => nodes,
                Err(_) => {
                    proof {
                        assert(false);
                    }
                    return CNode::new(crate::bit_indexed_array::default_bit_indexed_array::<u32, MNode<K, V>, usize>());
                },
            };
            let r = CNode::new(nodes);
            proof {
                assert(r.children().dom() =~= set![p1, p2]);
                assert(r.children()[p1] == this);
                assert(r.children()[p2] == right);
                assert forall|k: K| #[trigger]
                    MNode::C(r).lookup::<M>(k, d) == if this.lookup::<M>(k, 0) is Some {
                        this.lookup::<M>(k, 0)
                    } else {
                        right.lookup::<M>(k, 0)
                    } by {
                    let p = hash_chunk(M::hash_of(k), d);
                    if p != p1 {
                        assert(this.lookup::<M>(k, d) is None);
                    }
                    if p != p2 {
                        assert(right.lookup::<M>(k, d) is None);
                    }
                }
                assert(MNode::C(r).view_at::<M>(d) =~= vt.union_prefer_right(vr));
                assert(r.spec_size() == MNode::C(r).view_at::<M>(d).len());
                assert forall|p: int| #[trigger] r.children().contains_key(p) implies {
                    &&& r.children()[p].wf::<M>(d + 1)
                    &&& forall|k: K| #[trigger]
                        r.children()[p].lookup::<M>(k, d + 1) is Some ==> hash_chunk(M::hash_of(k), d) == p
                } by {
                    assert(p == p1 || p == p2);
                    assert forall|k: K| #[trigger] r.children()[p].lookup::<M>(k, d + 1) is Some implies hash_chunk(M::hash_of(k), d) == p by {
                        if p == p1 {
                            assert(this.lookup::<M>(k, 0) is Some);
                        } else {
                            assert(right.lookup::<M>(k, 0) is Some);
                        }
                    }
                }
                assert(MNode::C(r).wf::<M>(d));
            }
            r
        }
    }
}

// ----------------------------------------------------------------------------
// Lists of entries
// ----------------------------------------------------------------------------

/// Looking up in a list with an entry in front.
pub proof fn lemma_cons_lookup<K, V>(e: (K, V), rest: Seq<(K, V)>, j: K)
    ensures
        entries_lookup(seq![e] + rest, j) == if e.0 == j {
            Some(e.1)
        } else {
            entries_lookup(rest, j)
        },
{
    let es = seq![e] + rest;
    assert(es[0] == e);
    assert(es.drop_first() =~= rest);
}

/// The keys of a list with an entry in front are distinct exactly when the rest
/// are, and do not hold the front key.
pub proof fn lemma_cons_keys<K, V>(e: (K, V), rest: Seq<(K, V)>)
    ensures
        entries_keys(seq![e] + rest) == seq![e.0] + entries_keys(rest),
        entries_keys(seq![e] + rest).no_duplicates() <==> (entries_keys(rest).no_duplicates()
            && !entries_keys(rest).contains(e.0)),
{
    let ks = entries_keys(seq![e] + rest);
    let kr = entries_keys(rest);
    assert(ks =~= seq![e.0] + kr);
    if ks.no_duplicates() {
        assert forall|i: int, j: int| 0 <= i < kr.len() && 0 <= j < kr.len() && i != j implies kr[i] != kr[j] by {
            assert(ks[i + 1] == kr[i]);
            assert(ks[j + 1] == kr[j]);
        }
        if kr.contains(e.0) {
            let i = choose|i: int| 0 <= i < kr.len() && kr[i] == e.0;
            assert(ks[i + 1] == ks[0]);
        }
    }
    if kr.no_duplicates() && !kr.contains(e.0) {
        assert forall|i: int, j: int| 0 <= i < ks.len() && 0 <= j < ks.len() && i != j implies ks[i] != ks[j] by {
            if i > 0 && j > 0 {
                assert(ks[i] == kr[i - 1]);
                assert(ks[j] == kr[j - 1]);
            } else if i == 0 {
                assert(ks[j] == kr[j - 1]);
            } else {
                assert(ks[i] == kr[i - 1]);
            }
        }
    }
}

/// A list of distinct keys without `key` holds all other keys as before.
pub open spec fn removed_from<K, V>(es: Seq<(K, V)>, es2: Seq<(K, V)>, key: K) -> bool {
    &&& entries_keys(es2).no_duplicates()
    &&& es2.len() + 1 == es.len()
    &&& forall|j: K| #[trigger] entries_lookup(es2, j) == if j == key {
        None
    } else {
        entries_lookup(es, j)
    }
}

/// The outcome of removing a key from a list node.
pub enum LNodeRemoveResult<'a, K, V> {
    NotFound,
    RemovedL(Arc<LNode<K, V>>, &'a K, &'a V),
    RemovedS(Arc<SNode<K, V>>, &'a K, &'a V),
}

impl<K, V> LNodeNext<K, V> {
    /// The node that the rest of a list is.
    pub closed spec fn as_node(self) -> MNode<K, V> {
        match self {
            LNodeNext::L(l) => MNode::L(l),
            LNodeNext::S(s) => MNode::S(s),
        }
    }

    /// The node that the rest of a list is.
    pub fn into_node(self) -> (r: MNode<K, V>)
        ensures
            r == self.as_node(),
    {
        match self {
            LNodeNext::L(l) => MNode::L(l),
            LNodeNext::S(s) => MNode::S(s),
        }
    }
}

impl<K: Key, V> LNode<K, V> {
    /// The list without the first entry whose key is `key`.
    pub fn remove_from_lnode<'a>(this: &'a Arc<LNode<K, V>>, key: &K) -> (r: LNodeRemoveResult<'a, K, V>)
        requires
            this.sizes_ok(),
            entries_keys(this.entries()).no_duplicates(),
        ensures
            match r {
                LNodeRemoveResult::NotFound => entries_lookup(this.entries(), *key) is None,
                LNodeRemoveResult::RemovedL(l, k, v) => {
                    &&& *k == *key
                    &&& entries_lookup(this.entries(), *key) == Some(*v)
                    &&& l.sizes_ok()
                    &&& removed_from(this.entries(), l.entries(), *key)
                },
                LNodeRemoveResult::RemovedS(s, k, v) => {
                    &&& *k == *key
                    &&& entries_lookup(this.entries(), *key) == Some(*v)
                    &&& removed_from(this.entries(), seq![(s.spec_key(), s.spec_value())], *key)
                },
            },
        decreases *this,
    {
        let ghost e = (this.entry.spec_key(), this.entry.spec_value());
        let ghost rest = this.next.entries();
        proof {
            lemma_cons_keys(e, rest);
            assert forall|j: K| #[trigger] entries_lookup(this.entries(), j) == if e.0 == j {
                Some(e.1)
            } else {
                entries_lookup(rest, j)
            } by {
                lemma_cons_lookup(e, rest, j);
            }
        }
        if this.entry.key().key_eq(key) {
            proof {
                assert forall|j: K| #[trigger] entries_lookup(rest, j) == if j == *key {
                    None
                } else {
                    entries_lookup(this.entries(), j)
                } by {
                    lemma_entries_lookup_some(rest, j);
                }
            }
            match &this.next {
                LNodeNext::L(l) => LNodeRemoveResult::RemovedL(l.clone(), this.entry.key(), this.entry.value()),
                LNodeNext::S(s) => LNodeRemoveResult::RemovedS(s.clone(), this.entry.key(), this.entry.value()),
            }
        } else {
            match &this.next {
                LNodeNext::L(l) => match Self::remove_from_lnode(l, key) {
                    LNodeRemoveResult::NotFound => LNodeRemoveResult::NotFound,
                    LNodeRemoveResult::RemovedL(l2, k, v) => {
                        let ghost rest2 = l2.entries();
                        let next = LNodeNext::L(l2);
                        let r = LNode::new(this.entry.clone(), next);
                        proof {
                            Self::lemma_cons_removed(e, rest, rest2, *key);
                        }
                        LNodeRemoveResult::RemovedL(r, k, v)
                    },
                    LNodeRemoveResult::RemovedS(s2, k, v) => {
                        let ghost rest2 = seq![(s2.spec_key(), s2.spec_value())];
                        let next = LNodeNext::S(s2);
                        let r = LNode::new(this.entry.clone(), next);
                        proof {
                            Self::lemma_cons_removed(e, rest, rest2, *key);
                        }
                        LNodeRemoveResult::RemovedL(r, k, v)
                    },
                },
                LNodeNext::S(s) => {
                    proof {
                        lemma_cons_lookup((s.spec_key(), s.spec_value()), Seq::empty(), *key);
                        assert(seq![(s.spec_key(), s.spec_value())] + Seq::<(K, V)>::empty() =~= rest);
                    }
                    if s.key().key_eq(key) {
                        proof {
                            let es2 = seq![e];
                            assert forall|j: K| #[trigger] entries_lookup(es2, j) == if j == *key {
                                None
                            } else {
                                entries_lookup(this.entries(), j)
                            } by {
                                lemma_cons_lookup(e, Seq::empty(), j);
                                assert(seq![e] + Seq::<(K, V)>::empty() =~= es2);
                                lemma_cons_lookup((s.spec_key(), s.spec_value()), Seq::empty(), j);
                            }
                            assert(entries_keys(es2) =~= seq![e.0]);
                        }
                        LNodeRemoveResult::RemovedS(this.entry.clone(), s.key(), s.value())
                    } else {
                        LNodeRemoveResult::NotFound
                    }
                },
            }
        }
    }

    /// Removing a key behind the front entry.
    proof fn lemma_cons_removed(e: (K, V), rest: Seq<(K, V)>, rest2: Seq<(K, V)>, key: K)
        requires
            e.0 != key,
            removed_from(rest, rest2, key),
            entries_keys(seq![e] + rest).no_duplicates(),
        ensures
            removed_from(seq![e] + rest, seq![e] + rest2, key),
    {
        lemma_cons_keys(e, rest);
        lemma_cons_keys(e, rest2);
        if entries_keys(rest2).contains(e.0) {
            lemma_entries_lookup_some(rest2, e.0);
            lemma_entries_lookup_some(rest, e.0);
        }
        assert forall|j: K| #[trigger] entries_lookup(seq![e] + rest2, j) == if j == key {
            None
        } else {
            entries_lookup(seq![e] + rest, j)
        } by {
            lemma_cons_lookup(e, rest, j);
            lemma_cons_lookup(e, rest2, j);
        }
    }
}

// ----------------------------------------------------------------------------
// Insertion
// ----------------------------------------------------------------------------

/// The outcome of inserting into a node: the entry already there, or the new
/// node and the entry it replaced, if any.
pub enum InsertResult<'a, K, V> {
    Found(&'a K, &'a V),
    InsertedC(CNode<K, V>, Option<(&'a K, &'a V)>),
    InsertedL(Arc<LNode<K, V>>, Option<(&'a K, &'a V)>),
    InsertedS(Arc<SNode<K, V>>, Option<(&'a K, &'a V)>),
}

impl<'a, K, V> InsertResult<'a, K, V> {
    /// The new node, for an insertion that made one.
    pub open spec fn node(self) -> MNode<K, V> {
        match self {
            InsertResult::InsertedC(c, _) => MNode::C(c),
            InsertResult::InsertedL(l, _) => MNode::L(l),
            InsertResult::InsertedS(s, _) => MNode::S(s),
            InsertResult::Found(_, _) => arbitrary(),
        }
    }

    /// The entry replaced, for an insertion that made a node.
    pub open spec fn prev(self) -> Option<(&'a K, &'a V)> {
        match self {
            InsertResult::InsertedC(_, p) => p,
            InsertResult::InsertedL(_, p) => p,
            InsertResult::InsertedS(_, p) => p,
            InsertResult::Found(_, _) => None,
        }
    }

    /// What inserting `key` and `value` into `old` at depth `d` gives: with the key
    /// present and no replacement, the entry there; otherwise a well-formed node
    /// that maps the key to the value and every other key as before, and the
    /// entry replaced.
    pub open spec fn inserted_from<M: HasherBv<u64, K>>(
        self,
        old: MNode<K, V>,
        key: K,
        value: V,
        d: nat,
        replace: bool,
    ) -> bool {
        match self {
            InsertResult::Found(k, v) => !replace && *k == key && old.lookup::<M>(key, d) == Some(*v),
            _ => {
                &&& self.node().wf::<M>(d)
                &&& forall|j: K| #[trigger]
                    self.node().lookup::<M>(j, d) == if j == key {
                        Some(value)
                    } else {
                        old.lookup::<M>(j, d)
                    }
                &&& match self.prev() {
                    Some((k, v)) => replace && *k == key && old.lookup::<M>(key, d) == Some(*v),
                    None => old.lookup::<M>(key, d) is None,
                }
            },
        }
    }
}

impl<K: Key, V> LNode<K, V> {
    /// A list node with a new entry in front of `this`, for a key of the same hash,
    /// or a `CNode` holding both, for a key of another hash.
    pub fn lift_to_cnode_and_insert<'a, M: HasherBv<u64, K>>(
        this: LNodeNext<K, V>,
        key: K,
        value: V,
        hash: u64,
        depth: usize,
    ) -> (r: InsertResult<'a, K, V>)
        requires
            this.as_node().wf::<M>(0),
            this.as_node().lookup::<M>(key, 0) is None,
            hash == M::hash_of(key),
            agrees_below(this.as_node().flat_hash::<M>(), hash, depth as nat),
            this.as_node().size_of() < usize::MAX,
        ensures
            r is InsertedC || r is InsertedL,
            r.prev() is None,
            r.inserted_from::<M>(this.as_node(), key, value, depth as nat, false),
    {
        let ghost old = this.as_node();
        let ghost d = depth as nat;
        proof {
            old.lemma_flat::<M>(0, d);
            old.lemma_size_view::<M>(0);
            if this is L {
                assert(this.entries() == old.list_entries());
                assert(this.sizes_ok());
            }
        }
        let this_hash = M::hash(this.key());
        proof {
            if this is S {
                assert(this.entries()[0].0 == old->S_0.spec_key());
            }
        }
        if this_hash == hash {
            let ghost rest = this.entries();
            proof {
                if this is L {
                    assert(entries_keys(rest).no_duplicates());
                    assert(this.sizes_ok());
                } else {
                    assert(entries_keys(rest) =~= seq![rest[0].0]);
                }
                lemma_entries_lookup_some(rest, key);
                assert(old.lookup::<M>(key, 0) == entries_lookup(rest, key)) by {
                    if this is S {
                        lemma_cons_lookup(rest[0], Seq::empty(), key);
                        assert(seq![rest[0]] + Seq::<(K, V)>::empty() =~= rest);
                    }
                }
            }
            let entry = SNode::new(key, value);
            let ghost e = (entry.spec_key(), entry.spec_value());
            let l = LNode::new(entry, this);
            proof {
                lemma_cons_keys(e, rest);
                let n = MNode::L(l);
                assert forall|j: K| #[trigger] n.lookup::<M>(j, d) == if j == key {
                    Some(value)
                } else {
                    old.lookup::<M>(j, d)
                } by {
                    lemma_cons_lookup(e, rest, j);
                    if this is S {
                        lemma_cons_lookup(rest[0], Seq::empty(), j);
                        assert(seq![rest[0]] + Seq::<(K, V)>::empty() =~= rest);
                    }
                }
                assert forall|i: int| 0 <= i < l.entries().len() implies #[trigger] M::hash_of(l.entries()[i].0) == M::hash_of(l.entries()[0].0) by {
                    if i > 0 {
                        assert(l.entries()[i] == rest[i - 1]);
                        if this is L {
                            assert(M::hash_of(rest[i - 1].0) == M::hash_of(rest[0].0));
                        }
                    }
                }
            }
            InsertResult::InsertedL(l, None)
        } else {
            proof {
                if d > max_depth() {
                    lemma_agree_all(this_hash, hash, d);
                }
            }
            let this_flag = match Flag::new_at_depth(this_hash, depth) {
                Some(f) => f,
                None => {
                    proof {
                        assert(false);
                    }
                    return InsertResult::InsertedS(SNode::new(key, value), None);
                },
            };
            let key_flag = match Flag::new_at_depth(hash, depth) {
                Some(f) => f,
                None => {
                    proof {
                        assert(false);
                    }
                    return InsertResult::InsertedS(SNode::new(key, value), None);
                },
            };
            let snode = SNode::new(key, value);
            let ghost right = MNode::S(snode);
            let c = CNode::lift_to_cnode_and_insert::<M>(this.into_node(), this_flag, MNode::S(snode), key_flag);
            proof {
                let n = MNode::C(c);
                assert forall|j: K| #[trigger] n.lookup::<M>(j, d) == if j == key {
                    Some(value)
                } else {
                    old.lookup::<M>(j, d)
                } by {
                    assert(n.lookup::<M>(j, d) == if old.lookup::<M>(j, 0) is Some {
                        old.lookup::<M>(j, 0)
                    } else {
                        right.lookup::<M>(j, 0)
                    });
                }
            }
            InsertResult::InsertedC(c, None)
        }
    }

    /// Insert into a list node: the entry already there, a list with the entry
    /// replaced or added, or a `CNode` holding the list and a key of another hash.
    pub fn insert<'a, M: HasherBv<u64, K>>(
        this: &'a Arc<LNode<K, V>>,
        key: K,
        value: V,
        hash: u64,
        depth: usize,
        replace: bool,
    ) -> (r: InsertResult<'a, K, V>)
        requires
            MNode::L(*this).wf::<M>(depth as nat),
            hash == M::hash_of(key),
            keys_agree::<K, V, M>(MNode::L(*this), hash, depth as nat),
            MNode::L(*this).size_of() < usize::MAX,
        ensures
            r is Found || r is InsertedC || r is InsertedL,
            r.inserted_from::<M>(MNode::L(*this), key, value, depth as nat, replace),
    {
        let ghost old = MNode::L(*this);
        let ghost d = depth as nat;
        let ghost es = this.entries();
        match this.find(&key) {
            Some((k, v)) => {
                if replace {
                    match Self::remove_from_lnode(this, &key) {
                        LNodeRemoveResult::RemovedL(l, k, v) => {
                            let ghost rest = l.entries();
                            let entry = SNode::new(key, value);
                            let ghost e = (entry.spec_key(), entry.spec_value());
                            let n = LNode::new(entry, LNodeNext::L(l));
                            proof {
                                self::lemma_list_replaced::<K, V, M>(es, rest, e, n.entries());
                                assert forall|j: K| #[trigger] MNode::L(n).lookup::<M>(j, d) == if j == key {
                                    Some(value)
                                } else {
                                    old.lookup::<M>(j, d)
                                } by {
                                    lemma_cons_lookup(e, rest, j);
                                }
                            }
                            InsertResult::InsertedL(n, Some((k, v)))
                        },
                        LNodeRemoveResult::RemovedS(s, k, v) => {
                            let ghost rest = seq![(s.spec_key(), s.spec_value())];
                            let entry = SNode::new(key, value);
                            let ghost e = (entry.spec_key(), entry.spec_value());
                            let n = LNode::new(entry, LNodeNext::S(s));
                            proof {
                                self::lemma_list_replaced::<K, V, M>(es, rest, e, n.entries());
                                assert forall|j: K| #[trigger] MNode::L(n).lookup::<M>(j, d) == if j == key {
                                    Some(value)
                                } else {
                                    old.lookup::<M>(j, d)
                                } by {
                                    lemma_cons_lookup(e, rest, j);
                                }
                            }
                            InsertResult::InsertedL(n, Some((k, v)))
                        },
                        LNodeRemoveResult::NotFound => {
                            proof {
                                assert(false);
                            }
                            InsertResult::Found(k, v)
                        },
                    }
                } else {
                    InsertResult::Found(k, v)
                }
            },
            None => {
                proof {
                    assert(old.flat_hash::<M>() == M::hash_of(es[0].0));
                    lemma_entries_lookup_at(es, 0);
                    assert(old.lookup::<M>(es[0].0, d) is Some);
                    assert(agrees_below(M::hash_of(es[0].0), hash, d));
                    assert(LNodeNext::L(*this).as_node() == old);
                }
                Self::lift_to_cnode_and_insert::<M>(LNodeNext::L(this.clone()), key, value, hash, depth)
            },
        }
    }
}

/// Replacing an entry of a list node by putting the new entry in front of the
/// rest keeps the list well formed.
proof fn lemma_list_replaced<K, V, M: HasherBv<u64, K>>(
    es: Seq<(K, V)>,
    rest: Seq<(K, V)>,
    e: (K, V),
    n: Seq<(K, V)>,
)
    requires
        entries_keys(es).no_duplicates(),
        es.len() >= 2,
        forall|i: int| 0 <= i < es.len() ==> #[trigger] M::hash_of(es[i].0) == M::hash_of(es[0].0),
        removed_from(es, rest, e.0),
        entries_lookup(es, e.0) is Some,
        n == seq![e] + rest,
    ensures
        entries_keys(n).no_duplicates(),
        n.len() >= 2,
        forall|i: int| 0 <= i < n.len() ==> #[trigger] M::hash_of(n[i].0) == M::hash_of(n[0].0),
{
    lemma_cons_keys(e, rest);
    if entries_keys(rest).contains(e.0) {
        lemma_entries_lookup_some(rest, e.0);
    }
    lemma_entries_lookup_some(es, e.0);
    let w = choose|i: int| 0 <= i < es.len() && es[i].0 == e.0 && es[i].1 == entries_lookup(es, e.0)->Some_0;
    assert forall|i: int| 0 <= i < n.len() implies #[trigger] M::hash_of(n[i].0) == M::hash_of(n[0].0) by {
        assert(M::hash_of(es[w].0) == M::hash_of(es[0].0));
        if i > 0 {
            let k = n[i].0;
            assert(n[i] == rest[i - 1]);
            assert(entries_keys(rest)[i - 1] == k);
            lemma_entries_lookup_some(rest, k);
            lemma_entries_lookup_some(es, k);
            let x = choose|x: int| 0 <= x < es.len() && es[x].0 == k && es[x].1 == entries_lookup(es, k)->Some_0;
            assert(M::hash_of(es[x].0) == M::hash_of(es[0].0));
        }
    }
}

impl<K: Key, V> SNode<K, V> {
    /// Insert into a single-entry node: the entry already there, a node with the
    /// value replaced, or a list or `CNode` holding both entries.
    pub fn insert<'a, M: HasherBv<u64, K>>(
        this: &'a Arc<SNode<K, V>>,
        key: K,
        value: V,
        hash: u64,
        depth: usize,
        replace: bool,
    ) -> (r: InsertResult<'a, K, V>)
        requires
            hash == M::hash_of(key),
            keys_agree::<K, V, M>(MNode::S(*this), hash, depth as nat),
        ensures
            r.inserted_from::<M>(MNode::S(*this), key, value, depth as nat, replace),
    {
        let ghost old = MNode::S(*this);
        let ghost d = depth as nat;
        if this.key().key_eq(&key) {
            if replace {
                let n = SNode::new(key, value);
                InsertResult::InsertedS(n, Some((this.key(), this.value())))
            } else {
                InsertResult::Found(this.key(), this.value())
            }
        } else {
            proof {
                assert(old.lookup::<M>(this.spec_key(), d) is Some);
                assert(LNodeNext::S(*this).as_node() == old);
            }
            LNode::lift_to_cnode_and_insert::<M>(LNodeNext::S(this.clone()), key, value, hash, depth)
        }
    }
}

impl<K, V> CNode<K, V> {
    /// Putting a new child at the chunk of `key` into a well-formed `CNode`: if the
    /// new child maps `key` to `value` and the other keys of its chunk as before,
    /// the `CNode` does so too, and stays well formed.
    pub proof fn lemma_put_child<M: HasherBv<u64, K>>(
        c: CNode<K, V>,
        c2: CNode<K, V>,
        d: nat,
        key: K,
        value: V,
        child: MNode<K, V>,
    )
        requires
            MNode::C(c).wf::<M>(d),
            c2.children() == c.children().insert(hash_chunk(M::hash_of(key), d), child),
            child.wf::<M>(d + 1),
            forall|j: K| #[trigger]
                child.lookup::<M>(j, d + 1) is Some ==> hash_chunk(M::hash_of(j), d) == hash_chunk(
                    M::hash_of(key),
                    d,
                ),
            forall|j: K|
                hash_chunk(M::hash_of(j), d) == hash_chunk(M::hash_of(key), d) ==> #[trigger] child.lookup::<M>(
                    j,
                    d + 1,
                ) == if j == key {
                    Some(value)
                } else {
                    MNode::C(c).lookup::<M>(j, d)
                },
            c2.spec_size() == c.spec_size() + (if MNode::C(c).lookup::<M>(key, d) is None {
                1nat
            } else {
                0nat
            }),
        ensures
            MNode::C(c2).wf::<M>(d),
            forall|j: K| #[trigger]
                MNode::C(c2).lookup::<M>(j, d) == if j == key {
                    Some(value)
                } else {
                    MNode::C(c).lookup::<M>(j, d)
                },
    {
        let p = hash_chunk(M::hash_of(key), d);
        let old = MNode::C(c);
        let new = MNode::C(c2);
        assert forall|j: K| #[trigger] new.lookup::<M>(j, d) == if j == key {
            Some(value)
        } else {
            old.lookup::<M>(j, d)
        } by {
            if hash_chunk(M::hash_of(j), d) == p {
                assert(new.lookup::<M>(j, d) == child.lookup::<M>(j, d + 1));
            }
        }
        assert(new.view_at::<M>(d) =~= old.view_at::<M>(d).insert(key, value));
        assert forall|q: int| #[trigger] c2.children().contains_key(q) implies {
            &&& c2.children()[q].wf::<M>(d + 1)
            &&& forall|k: K| #[trigger]
                c2.children()[q].lookup::<M>(k, d + 1) is Some ==> hash_chunk(M::hash_of(k), d) == q
        } by {
            if q != p {
                assert(c.children().contains_key(q));
                assert(c2.children()[q] == c.children()[q]);
            }
        }
    }

    /// Taking the child at the chunk of `key` out of a well-formed `CNode`: the
    /// `CNode` then maps every key as before but `key`, which it no longer holds.
    pub proof fn lemma_drop_child<M: HasherBv<u64, K>>(c: CNode<K, V>, c2: CNode<K, V>, d: nat, key: K)
        requires
            MNode::C(c).wf::<M>(d),
            c.children().contains_key(hash_chunk(M::hash_of(key), d)),
            c2.children() == c.children().remove(hash_chunk(M::hash_of(key), d)),
            forall|j: K| #[trigger]
                c.children()[hash_chunk(M::hash_of(key), d)].lookup::<M>(j, d + 1) is Some ==> j == key,
            MNode::C(c).lookup::<M>(key, d) is Some,
            c2.spec_size() + 1 == c.spec_size(),
        ensures
            MNode::C(c2).wf::<M>(d),
            forall|j: K| #[trigger]
                MNode::C(c2).lookup::<M>(j, d) == if j == key {
                    None
                } else {
                    MNode::C(c).lookup::<M>(j, d)
                },
    {
        let p = hash_chunk(M::hash_of(key), d);
        let old = MNode::C(c);
        let new = MNode::C(c2);
        assert forall|j: K| #[trigger] new.lookup::<M>(j, d) == if j == key {
            None
        } else {
            old.lookup::<M>(j, d)
        } by {
            if hash_chunk(M::hash_of(j), d) == p {
                assert(old.lookup::<M>(j, d) == c.children()[p].lookup::<M>(j, d + 1));
            }
        }
        assert(new.view_at::<M>(d) =~= old.view_at::<M>(d).remove(key));
        assert forall|q: int| #[trigger] c2.children().contains_key(q) implies {
            &&& c2.children()[q].wf::<M>(d + 1)
            &&& forall|k: K| #[trigger]
                c2.children()[q].lookup::<M>(k, d + 1) is Some ==> hash_chunk(M::hash_of(k), d) == q
        } by {
            assert(c.children().contains_key(q));
        }
    }
}

impl<K: Key, V> CNode<K, V> {
    /// The `CNode` with `child` put at the bit of `flag`, and `size` entries.
    fn with_child<M: HasherBv<u64, K>>(&self, flag: &Flag, child: MNode<K, V>, size: usize) -> (r: Self)
        requires
            flag.wf(),
            self.children().contains_key(hash_chunk(flag.spec_hash_value(), flag.spec_depth())),
        ensures
            r.children() == self.children().insert(hash_chunk(flag.spec_hash_value(), flag.spec_depth()), child),
            r.spec_size() == size,
    {
        proof {
            lemma_hash_chunk_range(flag.spec_hash_value(), flag.spec_depth());
            lemma_only_bit(32, hash_chunk(flag.spec_hash_value(), flag.spec_depth()));
        }
        match self.nodes.updated(flag.flag(), child, size) {
            Ok(nodes) => {
                let r = CNode::new(nodes);
                proof {
                    assert(r.children() =~= self.children().insert(
                        hash_chunk(flag.spec_hash_value(), flag.spec_depth()),
                        child,
                    ));
                }
                r
            },
            Err(_) => {
                proof {
                    assert(false);
                }
                self.clone()
            },
        }
    }

    /// Insert into the child that the hash selects at `depth`, or add a child for
    /// the key when there is none.
    pub fn insert<'a, M: HasherBv<u64, K>>(
        &'a self,
        key: K,
        value: V,
        hash: u64,
        depth: usize,
        replace: bool,
    ) -> (r: InsertResult<'a, K, V>)
        requires
            MNode::C(*self).wf::<M>(depth as nat),
            hash == M::hash_of(key),
            keys_agree::<K, V, M>(MNode::C(*self), hash, depth as nat),
            self.spec_size() < usize::MAX,
        ensures
            r is Found || r is InsertedC,
            r.inserted_from::<M>(MNode::C(*self), key, value, depth as nat, replace),
        decreases 13 - depth, 0nat,
    {
        let ghost old = MNode::C(*self);
        let ghost d = depth as nat;
        let ghost p = hash_chunk(hash, d);
        proof {
            lemma_hash_chunk_range(hash, d);
            lemma_only_bit(32, p);
            old.lemma_size_view::<M>(d);
        }
        let flag = match Flag::new_at_depth(hash, depth) {
            Some(flag) => flag,
            None => {
                proof {
                    assert(false);
                }
                return InsertResult::InsertedC(self.clone(), None);
            },
        };
        match self.nodes.at(flag.flag()) {
            Ok(node) => {
                proof {
                    old.lemma_child::<M>(d, p);
                    old.lemma_child_agrees::<M>(d, hash);
                    let cv = node.view_at::<M>(d + 1);
                    node.lemma_size_view::<M>(d + 1);
                    assert(cv.dom().subset_of(old.view_at::<M>(d).dom()));
                    vstd::set_lib::lemma_len_subset(cv.dom(), old.view_at::<M>(d).dom());
                }
                let res = node.insert::<M>(key, value, hash, depth + 1, replace);
                let ghost new_child = res.node();
                match res {
                    InsertResult::Found(k, v) => InsertResult::Found(k, v),
                    InsertResult::InsertedC(c, prev) => {
                        let size = if prev.is_none() { self.size() + 1 } else { self.size() };
                        let r = self.with_child::<M>(&flag, MNode::C(c), size);
                        proof {
                            Self::lemma_put_child::<M>(*self, r, d, key, value, new_child);
                        }
                        InsertResult::InsertedC(r, prev)
                    },
                    InsertResult::InsertedL(l, prev) => {
                        let size = if prev.is_none() { self.size() + 1 } else { self.size() };
                        let r = self.with_child::<M>(&flag, MNode::L(l), size);
                        proof {
                            Self::lemma_put_child::<M>(*self, r, d, key, value, new_child);
                        }
                        InsertResult::InsertedC(r, prev)
                    },
                    InsertResult::InsertedS(s, prev) => {
                        let size = if prev.is_none() { self.size() + 1 } else { self.size() };
                        let r = self.with_child::<M>(&flag, MNode::S(s), size);
                        proof {
                            Self::lemma_put_child::<M>(*self, r, d, key, value, new_child);
                        }
                        InsertResult::InsertedC(r, prev)
                    },
                }
            },
            Err(_) => {
                let snode = SNode::new(key, value);
                let ghost child = MNode::S(snode);
                match self.nodes.inserted(flag.flag(), MNode::S(snode), self.size() + 1) {
                    Ok(nodes) => {
                        let r = CNode::new(nodes);
                        proof {
                            assert(r.children() =~= self.children().insert(p, child));
                            Self::lemma_put_child::<M>(*self, r, d, key, value, child);
                        }
                        InsertResult::InsertedC(r, None)
                    },
                    Err(_) => {
                        proof {
                            assert(false);
                        }
                        InsertResult::InsertedC(self.clone(), None)
                    },
                }
            },
        }
    }
}

impl<K: Key, V> MNode<K, V> {
    /// Insert an entry into the trie rooted here at `depth`.
    pub fn insert<'a, M: HasherBv<u64, K>>(
        &'a self,
        key: K,
        value: V,
        hash: u64,
        depth: usize,
        replace: bool,
    ) -> (r: InsertResult<'a, K, V>)
        requires
            self.wf::<M>(depth as nat),
            hash == M::hash_of(key),
            keys_agree::<K, V, M>(*self, hash, depth as nat),
            self.size_of() < usize::MAX,
            depth <= 13,
        ensures
            r.inserted_from::<M>(*self, key, value, depth as nat, replace),
        decreases 13 - depth, 1nat,
    {
        match self {
            MNode::C(c) => c.insert::<M>(key, value, hash, depth, replace),
            MNode::L(l) => LNode::insert::<M>(l, key, value, hash, depth, replace),
            MNode::S(s) => SNode::insert::<M>(s, key, value, hash, depth, replace),
        }
    }
}

// ----------------------------------------------------------------------------
// Removal
// ----------------------------------------------------------------------------

/// The outcome of removing a key from a node: not found, or the node left and the
/// entry removed (none left, for `RemovedZ`).
pub enum RemoveResult<'a, K, V> {
    NotFound,
    RemovedC(CNode<K, V>, &'a K, &'a V),
    RemovedL(Arc<LNode<K, V>>, &'a K, &'a V),
    RemovedS(Arc<SNode<K, V>>, &'a K, &'a V),
    RemovedZ(&'a K, &'a V),
}

impl<'a, K, V> RemoveResult<'a, K, V> {
    /// The node left, for a removal that left one.
    pub open spec fn node(self) -> MNode<K, V> {
        match self {
            RemoveResult::RemovedC(c, _, _) => MNode::C(c),
            RemoveResult::RemovedL(l, _, _) => MNode::L(l),
            RemoveResult::RemovedS(s, _, _) => MNode::S(s),
            _ => arbitrary(),
        }
    }

    /// The entry removed.
    pub open spec fn entry(self) -> (&'a K, &'a V) {
        match self {
            RemoveResult::RemovedC(_, k, v) => (k, v),
            RemoveResult::RemovedL(_, k, v) => (k, v),
            RemoveResult::RemovedS(_, k, v) => (k, v),
            RemoveResult::RemovedZ(k, v) => (k, v),
            RemoveResult::NotFound => arbitrary(),
        }
    }

    /// What removing `key` from `old` at depth `d` gives: not found exactly when
    /// the key is absent; otherwise the entry removed and either nothing left (the
    /// key was the only one) or a well-formed node that holds every other key as
    /// before and not `key`.
    pub open spec fn removed_from<M: HasherBv<u64, K>>(self, old: MNode<K, V>, key: K, d: nat) -> bool {
        match self {
            RemoveResult::NotFound => old.lookup::<M>(key, d) is None,
            RemoveResult::RemovedZ(k, v) => {
                &&& *k == key
                &&& old.lookup::<M>(key, d) == Some(*v)
                &&& forall|j: K| j != key ==> #[trigger] old.lookup::<M>(j, d) is None
            },
            _ => {
                &&& *self.entry().0 == key
                &&& old.lookup::<M>(key, d) == Some(*self.entry().1)
                &&& self.node().wf::<M>(d)
                &&& forall|j: K| #[trigger]
                    self.node().lookup::<M>(j, d) == if j == key {
                        None
                    } else {
                        old.lookup::<M>(j, d)
                    }
            },
        }
    }
}

impl<K: Key, V> SNode<K, V> {
    /// Remove from a single-entry node: the entry, if its key is `key`.
    pub fn remove<'a, M: HasherBv<u64, K>>(this: &'a Arc<SNode<K, V>>, key: &K, depth: usize) -> (r: RemoveResult<'a, K, V>)
        ensures
            r is NotFound || r is RemovedZ,
            r.removed_from::<M>(MNode::S(*this), *key, depth as nat),
    {
        if this.key().key_eq(key) {
            RemoveResult::RemovedZ(this.key(), this.value())
        } else {
            RemoveResult::NotFound
        }
    }
}

impl<K: Key, V> LNode<K, V> {
    /// Remove from a list node: the list left, or the single entry left.
    pub fn remove<'a, M: HasherBv<u64, K>>(this: &'a Arc<LNode<K, V>>, key: &K, depth: usize) -> (r: RemoveResult<'a, K, V>)
        requires
            MNode::L(*this).wf::<M>(depth as nat),
        ensures
            r is NotFound || r is RemovedL || r is RemovedS,
            r.removed_from::<M>(MNode::L(*this), *key, depth as nat),
    {
        let ghost es = this.entries();
        let ghost d = depth as nat;
        match Self::remove_from_lnode(this, key) {
            LNodeRemoveResult::NotFound => RemoveResult::NotFound,
            LNodeRemoveResult::RemovedL(l, k, v) => {
                proof {
                    l.lemma_len();
                    self::lemma_list_shrunk::<K, V, M>(es, l.entries(), *key);
                }
                RemoveResult::RemovedL(l, k, v)
            },
            LNodeRemoveResult::RemovedS(s, k, v) => {
                proof {
                    let es2 = seq![(s.spec_key(), s.spec_value())];
                    assert forall|j: K| #[trigger] MNode::S(s).lookup::<M>(j, d) == entries_lookup(es2, j) by {
                        lemma_cons_lookup(es2[0], Seq::empty(), j);
                        assert(seq![es2[0]] + Seq::<(K, V)>::empty() =~= es2);
                    }
                }
                RemoveResult::RemovedS(s, k, v)
            },
        }
    }
}

/// A list without one of its keys still holds keys of one hash.
proof fn lemma_list_shrunk<K, V, M: HasherBv<u64, K>>(es: Seq<(K, V)>, es2: Seq<(K, V)>, key: K)
    requires
        entries_keys(es).no_duplicates(),
        forall|i: int| 0 <= i < es.len() ==> #[trigger] M::hash_of(es[i].0) == M::hash_of(es[0].0),
        removed_from(es, es2, key),
        es2.len() > 0,
    ensures
        forall|i: int| 0 <= i < es2.len() ==> #[trigger] M::hash_of(es2[i].0) == M::hash_of(es2[0].0),
{
    assert forall|i: int| 0 <= i < es2.len() implies M::hash_of(es2[i].0) == M::hash_of(es[0].0) by {
        let k = es2[i].0;
        assert(entries_keys(es2)[i] == k);
        lemma_entries_lookup_some(es2, k);
        lemma_entries_lookup_some(es, k);
        let x = choose|x: int| 0 <= x < es.len() && es[x].0 == k && es[x].1 == entries_lookup(es, k)->Some_0;
        assert(M::hash_of(es[x].0) == M::hash_of(es[0].0));
    }
    assert forall|i: int| 0 <= i < es2.len() implies #[trigger] M::hash_of(es2[i].0) == M::hash_of(es2[0].0) by {
        assert(M::hash_of(es2[0].0) == M::hash_of(es[0].0));
    }
}

impl<K, V> CNode<K, V> {
    /// Putting a new child at the chunk of `key` into a well-formed `CNode`, where
    /// the new child holds the other keys of its chunk as before and not `key`.
    pub proof fn lemma_put_child_removed<M: HasherBv<u64, K>>(
        c: CNode<K, V>,
        c2: CNode<K, V>,
        d: nat,
        key: K,
        child: MNode<K, V>,
    )
        requires
            MNode::C(c).wf::<M>(d),
            c2.children() == c.children().insert(hash_chunk(M::hash_of(key), d), child),
            child.wf::<M>(d + 1),
            forall|j: K| #[trigger]
                child.lookup::<M>(j, d + 1) is Some ==> hash_chunk(M::hash_of(j), d) == hash_chunk(
                    M::hash_of(key),
                    d,
                ),
            forall|j: K|
                hash_chunk(M::hash_of(j), d) == hash_chunk(M::hash_of(key), d) ==> #[trigger] child.lookup::<M>(
                    j,
                    d + 1,
                ) == if j == key {
                    None
                } else {
                    MNode::C(c).lookup::<M>(j, d)
                },
            MNode::C(c).lookup::<M>(key, d) is Some,
            c2.spec_size() + 1 == c.spec_size(),
        ensures
            MNode::C(c2).wf::<M>(d),
            forall|j: K| #[trigger]
                MNode::C(c2).lookup::<M>(j, d) == if j == key {
                    None
                } else {
                    MNode::C(c).lookup::<M>(j, d)
                },
    {
        let p = hash_chunk(M::hash_of(key), d);
        let old = MNode::C(c);
        let new = MNode::C(c2);
        assert forall|j: K| #[trigger] new.lookup::<M>(j, d) == if j == key {
            None
        } else {
            old.lookup::<M>(j, d)
        } by {
            if hash_chunk(M::hash_of(j), d) == p {
                assert(new.lookup::<M>(j, d) == child.lookup::<M>(j, d + 1));
            }
        }
        assert(new.view_at::<M>(d) =~= old.view_at::<M>(d).remove(key));
        assert forall|q: int| #[trigger] c2.children().contains_key(q) implies {
            &&& c2.children()[q].wf::<M>(d + 1)
            &&& forall|k: K| #[trigger]
                c2.children()[q].lookup::<M>(k, d + 1) is Some ==> hash_chunk(M::hash_of(k), d) == q
        } by {
            if q != p {
                assert(c.children().contains_key(q));
                assert(c2.children()[q] == c.children()[q]);
            }
        }
    }
}

impl<K: Key, V> CNode<K, V> {
    /// Remove from the child that the hash selects at `depth`; drop the child when
    /// nothing is left in it, and report nothing left when the `CNode` held one entry.
    pub fn remove<'a, M: HasherBv<u64, K>>(&'a self, key: &K, hash: u64, depth: usize) -> (r: RemoveResult<'a, K, V>)
        requires
            MNode::C(*self).wf::<M>(depth as nat),
            hash == M::hash_of(*key),
        ensures
            r is NotFound || r is RemovedC || r is RemovedZ,
            r.removed_from::<M>(MNode::C(*self), *key, depth as nat),
        decreases 13 - depth, 0nat,
    {
        let ghost old = MNode::C(*self);
        let ghost d = depth as nat;
        let ghost p = hash_chunk(hash, d);
        proof {
            lemma_hash_chunk_range(hash, d);
            lemma_only_bit(32, p);
            old.lemma_size_view::<M>(d);
        }
        let flag = match Flag::new_at_depth(hash, depth) {
            Some(flag) => flag,
            None => {
                proof {
                    assert(false);
                }
                return RemoveResult::NotFound;
            },
        };
        match self.nodes.at(flag.flag()) {
            Ok(node) => {
                proof {
                    old.lemma_child::<M>(d, p);
                }
                let res = node.remove::<M>(key, hash, depth + 1);
                let ghost new_child = res.node();
                proof {
                    if !(res is NotFound) {
                        assert(old.view_at::<M>(d).dom().contains(*key));
                    }
                }
                match res {
                    RemoveResult::NotFound => RemoveResult::NotFound,
                    RemoveResult::RemovedC(c, k, v) => {
                        let r = self.with_child::<M>(&flag, MNode::C(c), self.size() - 1);
                        proof {
                            Self::lemma_put_child_removed::<M>(*self, r, d, *key, new_child);
                        }
                        RemoveResult::RemovedC(r, k, v)
                    },
                    RemoveResult::RemovedL(l, k, v) => {
                        let r = self.with_child::<M>(&flag, MNode::L(l), self.size() - 1);
                        proof {
                            Self::lemma_put_child_removed::<M>(*self, r, d, *key, new_child);
                        }
                        RemoveResult::RemovedC(r, k, v)
                    },
                    RemoveResult::RemovedS(s, k, v) => {
                        let r = self.with_child::<M>(&flag, MNode::S(s), self.size() - 1);
                        proof {
                            Self::lemma_put_child_removed::<M>(*self, r, d, *key, new_child);
                        }
                        RemoveResult::RemovedC(r, k, v)
                    },
                    RemoveResult::RemovedZ(k, v) => {
                        if self.size() == 1 {
                            proof {
                                assert forall|j: K| j != *key implies #[trigger] old.lookup::<M>(j, d) is None by {
                                    if old.lookup::<M>(j, d) is Some {
                                        let dom = old.view_at::<M>(d).dom();
                                        assert(set![*key, j].subset_of(dom));
                                        vstd::set_lib::lemma_len_subset(set![*key, j], dom);
                                    }
                                }
                            }
                            RemoveResult::RemovedZ(k, v)
                        } else {
                            match self.nodes.removed(flag.flag(), self.size() - 1) {
                                Ok(nodes) => {
                                    let r = CNode::new(nodes);
                                    proof {
                                        assert(r.children() =~= self.children().remove(p));
                                        Self::lemma_drop_child::<M>(*self, r, d, *key);
                                    }
                                    RemoveResult::RemovedC(r, k, v)
                                },
                                Err(_) => {
                                    proof {
                                        assert(false);
                                    }
                                    RemoveResult::NotFound
                                },
                            }
                        }
                    },
                }
            },
            Err(_) => RemoveResult::NotFound,
        }
    }
}

impl<K: Key, V> MNode<K, V> {
    /// Remove a key from the trie rooted here at `depth`.
    pub fn remove<'a, M: HasherBv<u64, K>>(&'a self, key: &K, hash: u64, depth: usize) -> (r: RemoveResult<'a, K, V>)
        requires
            self.wf::<M>(depth as nat),
            hash == M::hash_of(*key),
            depth <= 13,
        ensures
            r.removed_from::<M>(*self, *key, depth as nat),
        decreases 13 - depth, 1nat,
    {
        match self {
            MNode::C(c) => c.remove::<M>(key, hash, depth),
            MNode::L(l) => LNode::remove::<M>(l, key, depth),
            MNode::S(s) => SNode::remove::<M>(s, key, depth),
        }
    }
}

// ----------------------------------------------------------------------------
// Transformation
// ----------------------------------------------------------------------------

/// The outcome of transforming the entries below a node: the node is unchanged,
/// or becomes a new node, or loses all its entries.
pub enum TransformResult<K, V, R> {
    Unchanged(R),
    C(CNode<K, V>, R),
    L(Arc<LNode<K, V>>, R),
    S(Arc<SNode<K, V>>, R),
    Removed(R),
}

impl<K, V, R> TransformResult<K, V, R> {
    /// The reduced secondary value.
    pub open spec fn reduced(self) -> R {
        match self {
            TransformResult::Unchanged(r) => r,
            TransformResult::C(_, r) => r,
            TransformResult::L(_, r) => r,
            TransformResult::S(_, r) => r,
            TransformResult::Removed(r) => r,
        }
    }

    /// The node that `old` becomes, or `None` when no entry is left.
    pub open spec fn node_after(self, old: MNode<K, V>) -> Option<MNode<K, V>> {
        match self {
            TransformResult::Unchanged(_) => Some(old),
            TransformResult::C(c, _) => Some(MNode::C(c)),
            TransformResult::L(l, _) => Some(MNode::L(l)),
            TransformResult::S(s, _) => Some(MNode::S(s)),
            TransformResult::Removed(_) => None,
        }
    }

    /// The entries that the list `old` becomes.
    pub open spec fn entries_after(self, old: Seq<(K, V)>) -> Seq<(K, V)> {
        match self {
            TransformResult::Unchanged(_) => old,
            TransformResult::L(l, _) => l.entries(),
            TransformResult::S(s, _) => seq![(s.spec_key(), s.spec_value())],
            _ => Seq::empty(),
        }
    }
}

/// The value for `k` in an optional node at depth `d`.
pub open spec fn lookup_in<K, V, M: HasherBv<u64, K>>(n: Option<MNode<K, V>>, k: K, d: nat) -> Option<V> {
    match n {
        Some(n) => n.lookup::<M>(k, d),
        None => None,
    }
}

/// The value for `k` among the children of a `CNode` at depth `d`.
pub open spec fn child_lookup<K, V, M: HasherBv<u64, K>>(children: Map<int, MNode<K, V>>, k: K, d: nat) -> Option<V> {
    let p = hash_chunk(M::hash_of(k), d);
    if children.contains_key(p) {
        children[p].lookup::<M>(k, d + 1)
    } else {
        None
    }
}

/// The transformation may be run on every entry below `node` at depth `d`.
pub open spec fn accepts_below<K, V, R, F: Fn(&K, &V) -> MapTransformResult<V, R>, M: HasherBv<u64, K>>(
    op: MapTransform<R, F>,
    node: MNode<K, V>,
    d: nat,
) -> bool {
    forall|k: K| #[trigger] node.lookup::<M>(k, d) is Some ==> op.accepts(k, node.lookup::<M>(k, d)->Some_0)
}

/// The transformation may be run on every entry of a list.
pub open spec fn accepts_entries<K, V, R, F: Fn(&K, &V) -> MapTransformResult<V, R>>(
    op: MapTransform<R, F>,
    es: Seq<(K, V)>,
) -> bool {
    forall|k: K| #[trigger] entries_lookup(es, k) is Some ==> op.accepts(k, entries_lookup(es, k)->Some_0)
}

/// `new` is the node `old` at depth `d` with the transformation run on each entry.
pub open spec fn transformed_node<K, V, R, F: Fn(&K, &V) -> MapTransformResult<V, R>, M: HasherBv<u64, K>>(
    op: MapTransform<R, F>,
    old: MNode<K, V>,
    new: Option<MNode<K, V>>,
    d: nat,
) -> bool {
    forall|k: K|
        #![trigger old.lookup::<M>(k, d)]
        #![trigger lookup_in::<K, V, M>(new, k, d)]
        transformed_entry(op, k, old.lookup::<M>(k, d), lookup_in::<K, V, M>(new, k, d))
}

/// `es2` is the list `es` of distinct keys with the transformation run on each
/// entry: the entries kept stay in order and keep their keys.
pub open spec fn transformed_entries<K, V, R, F: Fn(&K, &V) -> MapTransformResult<V, R>>(
    op: MapTransform<R, F>,
    es: Seq<(K, V)>,
    es2: Seq<(K, V)>,
) -> bool {
    &&& es2.len() <= es.len()
    &&& entries_keys(es2).no_duplicates()
    &&& forall|i: int| 0 <= i < es2.len() ==> entries_keys(es).contains(#[trigger] es2[i].0)
    &&& forall|k: K|
        #![trigger entries_lookup(es, k)]
        #![trigger entries_lookup(es2, k)]
        transformed_entry(op, k, entries_lookup(es, k), entries_lookup(es2, k))
}

/// The keys of the entries below `n` at depth `d`.
pub open spec fn node_keys<K, V, M: HasherBv<u64, K>>(n: MNode<K, V>, d: nat) -> Set<K> {
    Set::new(|k: K| n.lookup::<M>(k, d) is Some)
}

/// The keys of the entries below `n` at depth `d` whose hash picks a child
/// before position `p`.
pub open spec fn keys_before<K, V, M: HasherBv<u64, K>>(n: MNode<K, V>, d: nat, p: int) -> Set<K> {
    Set::new(|k: K| n.lookup::<M>(k, d) is Some && hash_chunk(M::hash_of(k), d) < p)
}

/// The keys of the list `es`.
pub open spec fn entries_key_set<K, V>(es: Seq<(K, V)>) -> Set<K> {
    Set::new(|k: K| entries_lookup(es, k) is Some)
}

/// Which secondary values the transformation may give for the entries below
/// `n` at depth `d`.
pub open spec fn node_transform_entries_ok<K, V, R: Clone, F: Fn(&K, &V) -> MapTransformResult<V, R>, M: HasherBv<u64, K>>(
    op: MapTransform<R, F>,
    n: MNode<K, V>,
    d: nat,
) -> spec_fn(K, R) -> bool {
    |k: K, y: R| transform_entry_reduced(op, k, n.lookup::<M>(k, d)->Some_0, y)
}

/// Which secondary values the transformation may give for the entries of `es`.
pub open spec fn list_transform_entries_ok<K, V, R: Clone, F: Fn(&K, &V) -> MapTransformResult<V, R>>(
    op: MapTransform<R, F>,
    es: Seq<(K, V)>,
) -> spec_fn(K, R) -> bool {
    |k: K, y: R| transform_entry_reduced(op, k, entries_lookup(es, k)->Some_0, y)
}

/// `r` is a reduction of the secondary values that the transformation gave on
/// the entries below `n` at depth `d`.
pub open spec fn node_transform_reduced<
    K,
    V,
    R: Clone + Default,
    RO: Fn(&R, &R) -> R,
    F: Fn(&K, &V) -> MapTransformResult<V, R>,
    M: HasherBv<u64, K>,
>(reduce_op: RO, op: MapTransform<R, F>, n: MNode<K, V>, d: nat, r: R) -> bool {
    exists|t: Reduction<K, R>|
        #![trigger t.combines(reduce_op)]
        reduction_fits(
            t,
            reduce_op,
            node_keys::<K, V, M>(n, d),
            node_transform_entries_ok::<K, V, R, F, M>(op, n, d),
            transform_others_ok(op),
        ) && t.value() == r
}

/// `r` is a reduction of the secondary values that the transformation gave on
/// the entries of `es`.
pub open spec fn list_transform_reduced<
    K,
    V,
    R: Clone + Default,
    RO: Fn(&R, &R) -> R,
    F: Fn(&K, &V) -> MapTransformResult<V, R>,
>(reduce_op: RO, op: MapTransform<R, F>, es: Seq<(K, V)>, r: R) -> bool {
    exists|t: Reduction<K, R>|
        #![trigger t.combines(reduce_op)]
        reduction_fits(
            t,
            reduce_op,
            entries_key_set(es),
            list_transform_entries_ok(op, es),
            transform_others_ok(op),
        ) && t.value() == r
}

/// The value of the front entry's result and that of the rest of a list of
/// distinct keys, combined, reduce the values for the whole list.
pub proof fn lemma_list_reduced_cons<
    K,
    V,
    R: Clone + Default,
    RO: Fn(&R, &R) -> R,
    F: Fn(&K, &V) -> MapTransformResult<V, R>,
>(reduce_op: RO, op: MapTransform<R, F>, e: (K, V), rest: Seq<(K, V)>, lr: R, rr: R, v: R)
    requires
        entries_keys(seq![e] + rest).no_duplicates(),
        transform_entry_reduced(op, e.0, e.1, lr),
        list_transform_reduced(reduce_op, op, rest, rr),
        reduce_op.ensures((&lr, &rr), v),
    ensures
        list_transform_reduced(reduce_op, op, seq![e] + rest, v),
{
    let es = seq![e] + rest;
    let t_rest = choose|t: Reduction<K, R>|
        #![trigger t.combines(reduce_op)]
        reduction_fits(
            t,
            reduce_op,
            entries_key_set(rest),
            list_transform_entries_ok(op, rest),
            transform_others_ok(op),
        ) && t.value() == rr;
    lemma_cons_keys(e, rest);
    lemma_entries_lookup_some(rest, e.0);
    lemma_cons_lookup(e, rest, e.0);
    assert forall|k: K, y: R|
        entries_key_set(rest).contains(k) && #[trigger] list_transform_entries_ok(op, rest)(k, y) implies #[trigger] list_transform_entries_ok(
        op,
        es,
    )(k, y) by {
        lemma_cons_lookup(e, rest, k);
    }
    lemma_fits_weaken(
        t_rest,
        reduce_op,
        entries_key_set(rest),
        entries_key_set(rest),
        list_transform_entries_ok(op, rest),
        list_transform_entries_ok(op, es),
        transform_others_ok(op),
        transform_others_ok(op),
    );
    let t_head = Reduction::<K, R>::Entry(e.0, lr);
    lemma_fits_entry(e.0, lr, reduce_op, list_transform_entries_ok(op, es), transform_others_ok(op));
    assert(set![e.0].disjoint(entries_key_set(rest)));
    lemma_fits_both(
        t_head,
        t_rest,
        v,
        reduce_op,
        set![e.0],
        entries_key_set(rest),
        list_transform_entries_ok(op, es),
        transform_others_ok(op),
    );
    assert(set![e.0].union(entries_key_set(rest)) =~= entries_key_set(es)) by {
        assert forall|k: K| #[trigger] entries_key_set(es).contains(k) == set![e.0].union(entries_key_set(rest)).contains(k) by {
            lemma_cons_lookup(e, rest, k);
        }
    }
    let t = Reduction::Both(Box::new(t_head), Box::new(t_rest), v);
    assert(t.combines(reduce_op));
}

/// The value for a single entry reduces the values for a list of it alone.
pub proof fn lemma_list_reduced_single<
    K,
    V,
    R: Clone + Default,
    RO: Fn(&R, &R) -> R,
    F: Fn(&K, &V) -> MapTransformResult<V, R>,
>(reduce_op: RO, op: MapTransform<R, F>, e: (K, V), y: R)
    requires
        transform_entry_reduced(op, e.0, e.1, y),
    ensures
        list_transform_reduced(reduce_op, op, seq![e], y),
{
    let es = seq![e];
    lemma_cons_lookup(e, Seq::empty(), e.0);
    assert(seq![e] + Seq::<(K, V)>::empty() =~= es);
    let t = Reduction::<K, R>::Entry(e.0, y);
    lemma_fits_entry(e.0, y, reduce_op, list_transform_entries_ok(op, es), transform_others_ok(op));
    assert(set![e.0] =~= entries_key_set(es)) by {
        assert forall|k: K| #[trigger] entries_key_set(es).contains(k) == set![e.0].contains(k) by {
            lemma_cons_lookup(e, Seq::empty(), k);
        }
    }
    assert(t.combines(reduce_op));
}

impl<K, V> MNode<K, V> {
    /// The entries of a single-entry or list node.
    pub open spec fn flat_entries(self) -> Seq<(K, V)> {
        match self {
            MNode::S(s) => seq![(s.spec_key(), s.spec_value())],
            MNode::L(l) => l.entries(),
            MNode::C(_) => Seq::empty(),
        }
    }

    /// A single-entry or list node is looked up as its list of entries.
    pub proof fn lemma_flat_lookup<M: HasherBv<u64, K>>(self, k: K, d: nat)
        requires
            self is S || self is L,
        ensures
            self.lookup::<M>(k, d) == entries_lookup(self.flat_entries(), k),
    {
        if let MNode::S(s) = self {
            lemma_cons_lookup((s.spec_key(), s.spec_value()), Seq::empty(), k);
            assert(seq![(s.spec_key(), s.spec_value())] + Seq::<(K, V)>::empty() =~= self.flat_entries());
        }
    }
}

/// The transformation of a list with an entry in front: the front entry's result
/// in front of the transformed rest.
proof fn lemma_transformed_cons<K, V, R, F: Fn(&K, &V) -> MapTransformResult<V, R>>(
    op: MapTransform<R, F>,
    e: (K, V),
    rest: Seq<(K, V)>,
    rest2: Seq<(K, V)>,
    r: MapTransformResult<V, R>,
)
    requires
        transformed_entries(op, rest, rest2),
        op.gives(e.0, e.1, r),
        entries_keys(seq![e] + rest).no_duplicates(),
    ensures
        transformed_entries(
            op,
            seq![e] + rest,
            match r.applied_to(e.1) {
                Some(w) => seq![(e.0, w)] + rest2,
                None => rest2,
            },
        ),
{
    let es = seq![e] + rest;
    let es2 = match r.applied_to(e.1) {
        Some(w) => seq![(e.0, w)] + rest2,
        None => rest2,
    };
    lemma_cons_keys(e, rest);
    if entries_keys(rest2).contains(e.0) {
        let i = choose|i: int| 0 <= i < entries_keys(rest2).len() && entries_keys(rest2)[i] == e.0;
        assert(rest2[i].0 == e.0);
        assert(entries_keys(rest).contains(rest2[i].0));
    }
    assert(!entries_keys(rest2).contains(e.0));
    if let Some(w) = r.applied_to(e.1) {
        lemma_cons_keys((e.0, w), rest2);
    }
    assert(entries_keys(es2).no_duplicates());
    assert forall|i: int| 0 <= i < es2.len() implies entries_keys(es).contains(#[trigger] es2[i].0) by {
        assert(entries_keys(es)[0] == e.0);
        let j = if r.applied_to(e.1) is Some { i - 1 } else { i };
        if j >= 0 {
            assert(es2[i] == rest2[j]);
            assert(entries_keys(rest).contains(rest2[j].0));
            let q = choose|q: int| 0 <= q < entries_keys(rest).len() && entries_keys(rest)[q] == rest2[j].0;
            assert(entries_keys(es)[q + 1] == entries_keys(rest)[q]);
        }
    }
    assert forall|k: K| #[trigger] transformed_entry(op, k, entries_lookup(es, k), entries_lookup(es2, k)) by {
        lemma_cons_lookup(e, rest, k);
        if let Some(w) = r.applied_to(e.1) {
            lemma_cons_lookup((e.0, w), rest2, k);
        }
        if k == e.0 {
            lemma_entries_lookup_some(rest2, k);
            assert(op.gives(k, e.1, r));
        } else {
            assert(transformed_entry(op, k, entries_lookup(rest, k), entries_lookup(rest2, k)));
        }
    }
}

impl<K: Key, V> SNode<K, V> {
    /// Run the transformation on the entry.
    pub fn transform<R: Clone, F: Fn(&K, &V) -> MapTransformResult<V, R>>(
        this: &Arc<SNode<K, V>>,
        op: &MapTransform<R, F>,
    ) -> (res: TransformResult<K, V, R>)
        requires
            op.accepts(this.spec_key(), this.spec_value()),
        ensures
            res is Unchanged || res is S || res is Removed,
            transformed_entries(
                *op,
                seq![(this.spec_key(), this.spec_value())],
                res.entries_after(seq![(this.spec_key(), this.spec_value())]),
            ),
            transform_entry_reduced(*op, this.spec_key(), this.spec_value(), res.reduced()),
    {
        let ghost e = (this.spec_key(), this.spec_value());
        let r = op.call(this.key(), this.value());
        proof {
            assert(op.gives(e.0, e.1, r));
            assert(op matches MapTransform::Generic(f) ==> f.ensures((&e.0, &e.1), r));
            assert(transformed_entries(*op, Seq::<(K, V)>::empty(), Seq::<(K, V)>::empty())) by {
                assert(entries_keys(Seq::<(K, V)>::empty()) =~= Seq::<K>::empty());
            }
            lemma_transformed_cons(*op, e, Seq::empty(), Seq::empty(), r);
            assert(seq![e] + Seq::<(K, V)>::empty() =~= seq![e]);
        }
        match r {
            MapTransformResult::Unchanged(red) => TransformResult::Unchanged(red),
            MapTransformResult::Transformed(v, red) => {
                let s = SNode::new(this.key().key_clone(), v);
                proof {
                    assert(seq![(e.0, s.spec_value())] + Seq::<(K, V)>::empty() =~= seq![(e.0, s.spec_value())]);
                }
                TransformResult::S(s, red)
            },
            MapTransformResult::Removed(red) => TransformResult::Removed(red),
        }
    }
}

impl<K: Key, V> LNode<K, V> {
    /// Run the transformation on every entry of the list.
    pub fn transform<R: Clone + Default, RO: Fn(&R, &R) -> R, F: Fn(&K, &V) -> MapTransformResult<V, R>>(
        this: &Arc<LNode<K, V>>,
        reduce_op: &RO,
        op: &MapTransform<R, F>,
    ) -> (res: TransformResult<K, V, R>)
        requires
            this.sizes_ok(),
            entries_keys(this.entries()).no_duplicates(),
            accepts_entries(*op, this.entries()),
            reduces_all(*reduce_op),
        ensures
            !(res is C),
            res matches TransformResult::L(l, _) ==> l.sizes_ok(),
            transformed_entries(*op, this.entries(), res.entries_after(this.entries())),
            list_transform_reduced(*reduce_op, *op, this.entries(), res.reduced()),
        decreases *this,
    {
        let ghost es = this.entries();
        let ghost e = (this.entry.spec_key(), this.entry.spec_value());
        let ghost rest = this.next.entries();
        proof {
            lemma_cons_keys(e, rest);
            assert forall|k: K| #[trigger] entries_lookup(rest, k) is Some implies op.accepts(
                k,
                entries_lookup(rest, k)->Some_0,
            ) by {
                lemma_cons_lookup(e, rest, k);
                lemma_entries_lookup_some(rest, k);
            }
            lemma_cons_lookup(e, rest, e.0);
        }
        let next = match &this.next {
            LNodeNext::L(l) => Self::transform(l, reduce_op, op),
            LNodeNext::S(s) => {
                proof {
                    lemma_cons_lookup((s.spec_key(), s.spec_value()), Seq::empty(), s.spec_key());
                    assert(seq![(s.spec_key(), s.spec_value())] + Seq::<(K, V)>::empty() =~= rest);
                }
                SNode::transform(s, op)
            },
        };
        proof {
            if let LNodeNext::S(s) = &this.next {
                lemma_list_reduced_single(*reduce_op, *op, (s.spec_key(), s.spec_value()), next.reduced());
            }
        }
        let r = op.call(this.entry.key(), this.entry.value());
        proof {
            assert(op.gives(e.0, e.1, r));
            lemma_transformed_cons(*op, e, rest, next.entries_after(rest), r);
            assert(op matches MapTransform::Generic(f) ==> f.ensures((&e.0, &e.1), r));
        }
        let res = Self::transform_result(this, r, next, reduce_op);
        proof {
            lemma_list_reduced_cons(*reduce_op, *op, e, rest, r.reduced(), next.reduced(), res.reduced());
        }
        res
    }

    /// The list after the front entry's result `result` and the rest's outcome `next`.
    fn transform_result<R, RO: Fn(&R, &R) -> R>(
        this: &Arc<LNode<K, V>>,
        result: MapTransformResult<V, R>,
        next: TransformResult<K, V, R>,
        reduce_op: &RO,
    ) -> (res: TransformResult<K, V, R>)
        requires
            this.sizes_ok(),
            !(next is C),
            next matches TransformResult::L(l, _) ==> l.sizes_ok(),
            next.entries_after(this.next.entries()).len() <= this.next.entries().len(),
            reduces_all(*reduce_op),
        ensures
            !(res is C),
            res matches TransformResult::L(l, _) ==> l.sizes_ok(),
            res.entries_after(this.entries()) == match result.applied_to(this.entry.spec_value()) {
                Some(w) => seq![(this.entry.spec_key(), w)] + next.entries_after(this.next.entries()),
                None => next.entries_after(this.next.entries()),
            },
            reduce_op.ensures((&result.reduced(), &next.reduced()), res.reduced()),
    {
        let ghost rest = this.next.entries();
        let ghost rest2 = next.entries_after(rest);
        let ghost e = (this.entry.spec_key(), this.entry.spec_value());
        proof {
            assert(this.entries() == seq![e] + rest);
        }
        let ghost applied = result.applied_to(e.1);
        let (lr, kept, keep_front) = match result {
            MapTransformResult::Unchanged(lr) => (lr, None, true),
            MapTransformResult::Transformed(lv, lr) => (lr, Some(SNode::new(this.entry.key().key_clone(), lv)), true),
            MapTransformResult::Removed(lr) => (lr, None, false),
        };
        match next {
            TransformResult::Unchanged(rr) => {
                let reduced = reduce_op(&lr, &rr);
                match kept {
                    None => if keep_front {
                        TransformResult::Unchanged(reduced)
                    } else {
                        match &this.next {
                            LNodeNext::L(l) => TransformResult::L(l.clone(), reduced),
                            LNodeNext::S(s) => {
                                proof {
                                    assert(rest == seq![(s.spec_key(), s.spec_value())]);
                                }
                                TransformResult::S(s.clone(), reduced)
                            },
                        }
                    },
                    Some(front) => {
                        let next_clone = match &this.next {
                            LNodeNext::L(l) => LNodeNext::L(l.clone()),
                            LNodeNext::S(s) => LNodeNext::S(s.clone()),
                        };
                        TransformResult::L(LNode::new(front, next_clone), reduced)
                    },
                }
            },
            TransformResult::L(lnode, rr) => {
                let reduced = reduce_op(&lr, &rr);
                if keep_front {
                    let front = match kept {
                        Some(front) => front,
                        None => this.entry.clone(),
                    };
                    TransformResult::L(LNode::new(front, LNodeNext::L(lnode)), reduced)
                } else {
                    TransformResult::L(lnode, reduced)
                }
            },
            TransformResult::S(snode, rr) => {
                let reduced = reduce_op(&lr, &rr);
                if keep_front {
                    let front = match kept {
                        Some(front) => front,
                        None => this.entry.clone(),
                    };
                    TransformResult::L(LNode::new(front, LNodeNext::S(snode)), reduced)
                } else {
                    TransformResult::S(snode, reduced)
                }
            },
            TransformResult::Removed(rr) => {
                let reduced = reduce_op(&lr, &rr);
                if keep_front {
                    let front = match kept {
                        Some(front) => front,
                        None => this.entry.clone(),
                    };
                    proof {
                        assert(seq![(front.spec_key(), front.spec_value())] + Seq::<(K, V)>::empty() =~= seq![(front.spec_key(), front.spec_value())]);
                    }
                    TransformResult::S(front, reduced)
                } else {
                    TransformResult::Removed(reduced)
                }
            },
            TransformResult::C(_, rr) => {
                proof {
                    assert(false);
                }
                TransformResult::Removed(rr)
            },
        }
    }
}

impl<K: Key, V> MNode<K, V> {
    /// Run the transformation on every entry below the node at `depth`.
    pub fn transform<
        M: HasherBv<u64, K>,
        R: Clone + Default,
        RO: Fn(&R, &R) -> R,
        F: Fn(&K, &V) -> MapTransformResult<V, R>,
    >(&self, reduce_op: &RO, op: &MapTransform<R, F>, depth: usize) -> (res: TransformResult<K, V, R>)
        requires
            self.wf::<M>(depth as nat),
            depth <= 13,
            accepts_below::<K, V, R, F, M>(*op, *self, depth as nat),
            reduces_all(*reduce_op),
        ensures
            res.node_after(*self) matches Some(n) ==> n.wf::<M>(depth as nat),
            transformed_node::<K, V, R, F, M>(*op, *self, res.node_after(*self), depth as nat),
            node_transform_reduced::<K, V, R, RO, F, M>(*reduce_op, *op, *self, depth as nat, res.reduced()),
        decreases 13 - depth, 1nat,
    {
        let ghost d = depth as nat;
        match self {
            MNode::C(c) => c.transform::<M, R, RO, F>(reduce_op, op, depth),
            MNode::L(l) => {
                proof {
                    assert forall|k: K| #[trigger] entries_lookup(l.entries(), k) is Some implies op.accepts(
                        k,
                        entries_lookup(l.entries(), k)->Some_0,
                    ) by {
                        self.lemma_flat_lookup::<M>(k, d);
                    }
                }
                let res = LNode::transform(l, reduce_op, op);
                proof {
                    self.lemma_transformed_flat::<M, R, F>(*op, res, d);
                    self.lemma_reduced_flat::<M, R, RO, F>(*reduce_op, *op, d, res.reduced());
                }
                res
            },
            MNode::S(s) => {
                proof {
                    self.lemma_flat_lookup::<M>(s.spec_key(), d);
                    lemma_cons_lookup((s.spec_key(), s.spec_value()), Seq::empty(), s.spec_key());
                }
                let res = SNode::transform(s, op);
                proof {
                    self.lemma_transformed_flat::<M, R, F>(*op, res, d);
                    lemma_list_reduced_single(*reduce_op, *op, (s.spec_key(), s.spec_value()), res.reduced());
                    self.lemma_reduced_flat::<M, R, RO, F>(*reduce_op, *op, d, res.reduced());
                }
                res
            },
        }
    }
}

impl<K, V> MNode<K, V> {
    /// A reduction of the values for the entries of a single-entry or list
    /// node is one for the node.
    proof fn lemma_reduced_flat<
        M: HasherBv<u64, K>,
        R: Clone + Default,
        RO: Fn(&R, &R) -> R,
        F: Fn(&K, &V) -> MapTransformResult<V, R>,
    >(self, reduce_op: RO, op: MapTransform<R, F>, d: nat, r: R)
        requires
            self is S || self is L,
            list_transform_reduced(reduce_op, op, self.flat_entries(), r),
        ensures
            node_transform_reduced::<K, V, R, RO, F, M>(reduce_op, op, self, d, r),
    {
        let es = self.flat_entries();
        let t = choose|t: Reduction<K, R>|
            #![trigger t.combines(reduce_op)]
            reduction_fits(
                t,
                reduce_op,
                entries_key_set(es),
                list_transform_entries_ok(op, es),
                transform_others_ok(op),
            ) && t.value() == r;
        assert(entries_key_set(es) =~= node_keys::<K, V, M>(self, d)) by {
            assert forall|k: K| #[trigger] node_keys::<K, V, M>(self, d).contains(k) == entries_key_set(es).contains(k) by {
                self.lemma_flat_lookup::<M>(k, d);
            }
        }
        assert forall|k: K, y: R|
            entries_key_set(es).contains(k) && #[trigger] list_transform_entries_ok(op, es)(k, y) implies #[trigger] node_transform_entries_ok::<
            K,
            V,
            R,
            F,
            M,
        >(op, self, d)(k, y) by {
            self.lemma_flat_lookup::<M>(k, d);
        }
        lemma_fits_weaken(
            t,
            reduce_op,
            entries_key_set(es),
            node_keys::<K, V, M>(self, d),
            list_transform_entries_ok(op, es),
            node_transform_entries_ok::<K, V, R, F, M>(op, self, d),
            transform_others_ok(op),
            transform_others_ok(op),
        );
    }

    /// The reduction for the children of a `CNode` before position `p`,
    /// combined with that for the child at `p`, is one for the children up to
    /// `p`.
    proof fn lemma_reduced_child<
        M: HasherBv<u64, K>,
        R: Clone + Default,
        RO: Fn(&R, &R) -> R,
        F: Fn(&K, &V) -> MapTransformResult<V, R>,
    >(self, reduce_op: RO, op: MapTransform<R, F>, d: nat, p: int, t: Reduction<K, R>, child_r: R, v: R) -> (t2:
        Reduction<K, R>)
        requires
            self.wf::<M>(d),
            self is C,
            self->C_0.children().contains_key(p),
            reduction_fits(
                t,
                reduce_op,
                keys_before::<K, V, M>(self, d, p),
                node_transform_entries_ok::<K, V, R, F, M>(op, self, d),
                transform_others_ok(op),
            ),
            node_transform_reduced::<K, V, R, RO, F, M>(reduce_op, op, self->C_0.children()[p], d + 1, child_r),
            reduce_op.ensures((&t.value(), &child_r), v),
        ensures
            reduction_fits(
                t2,
                reduce_op,
                keys_before::<K, V, M>(self, d, p + 1),
                node_transform_entries_ok::<K, V, R, F, M>(op, self, d),
                transform_others_ok(op),
            ),
            t2.value() == v,
    {
        let child = self->C_0.children()[p];
        self.lemma_child::<M>(d, p);
        let tc = choose|tc: Reduction<K, R>|
            #![trigger tc.combines(reduce_op)]
            reduction_fits(
                tc,
                reduce_op,
                node_keys::<K, V, M>(child, d + 1),
                node_transform_entries_ok::<K, V, R, F, M>(op, child, d + 1),
                transform_others_ok(op),
            ) && tc.value() == child_r;
        let at_p = Set::new(|k: K| self.lookup::<M>(k, d) is Some && hash_chunk(M::hash_of(k), d) == p);
        assert(node_keys::<K, V, M>(child, d + 1) =~= at_p);
        assert forall|k: K, y: R|
            node_keys::<K, V, M>(child, d + 1).contains(k) && #[trigger] node_transform_entries_ok::<K, V, R, F, M>(
                op,
                child,
                d + 1,
            )(k, y) implies #[trigger] node_transform_entries_ok::<K, V, R, F, M>(op, self, d)(k, y) by {
            assert(child.lookup::<M>(k, d + 1) is Some);
        }
        lemma_fits_weaken(
            tc,
            reduce_op,
            node_keys::<K, V, M>(child, d + 1),
            at_p,
            node_transform_entries_ok::<K, V, R, F, M>(op, child, d + 1),
            node_transform_entries_ok::<K, V, R, F, M>(op, self, d),
            transform_others_ok(op),
            transform_others_ok(op),
        );
        lemma_fits_both(
            t,
            tc,
            v,
            reduce_op,
            keys_before::<K, V, M>(self, d, p),
            at_p,
            node_transform_entries_ok::<K, V, R, F, M>(op, self, d),
            transform_others_ok(op),
        );
        assert(keys_before::<K, V, M>(self, d, p).union(at_p) =~= keys_before::<K, V, M>(self, d, p + 1));
        Reduction::Both(Box::new(t), Box::new(tc), v)
    }

    /// A single-entry or list node whose list of entries was transformed is
    /// transformed as a node, and stays well formed.
    proof fn lemma_transformed_flat<M: HasherBv<u64, K>, R, F: Fn(&K, &V) -> MapTransformResult<V, R>>(
        self,
        op: MapTransform<R, F>,
        res: TransformResult<K, V, R>,
        d: nat,
    )
        requires
            self is S || self is L,
            self.wf::<M>(d),
            !(res is C),
            res matches TransformResult::L(l, _) ==> l.sizes_ok(),
            transformed_entries(op, self.flat_entries(), res.entries_after(self.flat_entries())),
        ensures
            res.node_after(self) matches Some(n) ==> n.wf::<M>(d),
            transformed_node::<K, V, R, F, M>(op, self, res.node_after(self), d),
    {
        let es = self.flat_entries();
        let es2 = res.entries_after(es);
        let new = res.node_after(self);
        assert forall|k: K| #[trigger] lookup_in::<K, V, M>(new, k, d) == entries_lookup(es2, k) by {
            self.lemma_flat_lookup::<M>(k, d);
            if let Some(n) = new {
                n.lemma_flat_lookup::<M>(k, d);
            }
        }
        assert forall|k: K| #[trigger] self.lookup::<M>(k, d) == entries_lookup(es, k) by {
            self.lemma_flat_lookup::<M>(k, d);
        }
        if let TransformResult::L(l, _) = res {
            l.lemma_len();
            self.lemma_flat::<M>(d, d);
            assert forall|i: int| 0 <= i < es2.len() implies #[trigger] M::hash_of(es2[i].0) == self.flat_hash::<M>() by {
                assert(entries_keys(es).contains(es2[i].0));
                lemma_entries_lookup_some(es, es2[i].0);
                self.lemma_flat_lookup::<M>(es2[i].0, d);
            }
            assert(M::hash_of(es2[0].0) == self.flat_hash::<M>());
        }
    }
}

impl<K: Key, V> CNode<K, V> {
    /// Run the transformation on every entry below the node at `depth`, child
    /// after child, and gather the children that are left.
    pub fn transform<
        M: HasherBv<u64, K>,
        R: Clone + Default,
        RO: Fn(&R, &R) -> R,
        F: Fn(&K, &V) -> MapTransformResult<V, R>,
    >(&self, reduce_op: &RO, op: &MapTransform<R, F>, depth: usize) -> (res: TransformResult<K, V, R>)
        requires
            MNode::C(*self).wf::<M>(depth as nat),
            accepts_below::<K, V, R, F, M>(*op, MNode::C(*self), depth as nat),
            reduces_all(*reduce_op),
        ensures
            res.node_after(MNode::C(*self)) matches Some(n) ==> n.wf::<M>(depth as nat),
            transformed_node::<K, V, R, F, M>(*op, MNode::C(*self), res.node_after(MNode::C(*self)), depth as nat),
            node_transform_reduced::<K, V, R, RO, F, M>(*reduce_op, *op, MNode::C(*self), depth as nat, res.reduced()),
        decreases 13 - depth, 0nat,
    {
        let ghost c = MNode::C(*self);
        let ghost d = depth as nat;
        let ghost old_ch = self.children();
        let mut size: usize = 0;
        let mut bits_t: u32 = u32::zero_word();
        let mut values_t: Vec<MNode<K, V>> = Vec::new();
        let mut reduced: R = R::default();
        let mut changed = false;
        let ghost mut newc: Map<int, MNode<K, V>> = Map::empty();
        let ghost mut keys: Set<K> = Set::empty();
        let ghost mut red_t: Reduction<K, R> = Reduction::Other(reduced);
        proof {
            lemma_count_zero(bits_t.bit_seq());
            MNode::C(*self).lemma_size_view::<M>(d);
            lemma_fits_other(
                reduced,
                *reduce_op,
                node_transform_entries_ok::<K, V, R, F, M>(*op, c, d),
                transform_others_ok(*op),
            );
            assert(keys_before::<K, V, M>(c, d, 0) =~= Set::<K>::empty()) by {
                assert forall|k: K| !keys_before::<K, V, M>(c, d, 0).contains(k) by {
                    lemma_hash_chunk_range(M::hash_of(k), d);
                }
            }
        }
        let mut index: usize = 0;
        while index < 32
            invariant
                index <= 32,
                c == MNode::C(*self),
                d == depth as nat,
                old_ch == self.children(),
                c.wf::<M>(d),
                accepts_below::<K, V, R, F, M>(*op, c, d),
                reduces_all(*reduce_op),
                c.view_at::<M>(d).dom().finite(),
                c.view_at::<M>(d).len() == self.spec_size(),
                bits_t.bit_seq().len() == 32,
                forall|p: int| 0 <= p < 32 ==> #[trigger] bits_t.bit_seq()[p] == newc.contains_key(p),
                forall|p: int|
                    #[trigger] newc.contains_key(p) ==> {
                        &&& 0 <= p < index
                        &&& old_ch.contains_key(p)
                        &&& newc[p].wf::<M>(d + 1)
                        &&& values_t@[rank(bits_t.bit_seq(), p) as int] == newc[p]
                        &&& forall|k: K| #[trigger]
                            newc[p].lookup::<M>(k, d + 1) is Some ==> hash_chunk(M::hash_of(k), d) == p
                    },
                values_t@.len() == count_set(bits_t.bit_seq()),
                forall|k: K|
                    #![trigger c.lookup::<M>(k, d)]
                    #![trigger child_lookup::<K, V, M>(newc, k, d)]
                    hash_chunk(M::hash_of(k), d) < index ==> transformed_entry(
                        *op,
                        k,
                        c.lookup::<M>(k, d),
                        child_lookup::<K, V, M>(newc, k, d),
                    ),
                keys.finite(),
                size == keys.len(),
                forall|k: K| #[trigger] keys.contains(k) <==> child_lookup::<K, V, M>(newc, k, d) is Some,
                keys.subset_of(c.view_at::<M>(d).dom()),
                !changed ==> forall|p: int|
                    #![trigger newc.contains_key(p)]
                    #![trigger old_ch.contains_key(p)]
                    0 <= p < index ==> (newc.contains_key(p) == old_ch.contains_key(p) && (newc.contains_key(p)
                        ==> newc[p] == old_ch[p])),
                red_t.value() == reduced,
                reduction_fits(
                    red_t,
                    *reduce_op,
                    keys_before::<K, V, M>(c, d, index as int),
                    node_transform_entries_ok::<K, V, R, F, M>(*op, c, d),
                    transform_others_ok(*op),
                ),
            decreases 32 - index,
        {
            let ghost pre_newc = newc;
            let ghost pre_keys = keys;
            let ghost pre_bits = bits_t.bit_seq();
            let ghost pre_vals = values_t@;
            let ghost p = index as int;
            match self.nodes.at_index(index) {
                Ok(node) => {
                    proof {
                        c.lemma_child::<M>(d, p);
                        assert forall|k: K| #[trigger] node.lookup::<M>(k, d + 1) is Some implies op.accepts(
                            k,
                            node.lookup::<M>(k, d + 1)->Some_0,
                        ) by {
                            assert(c.lookup::<M>(k, d) == node.lookup::<M>(k, d + 1));
                        }
                    }
                    let res = node.transform::<M, R, RO, F>(reduce_op, op, depth + 1);
                    let ghost nc = res.node_after(*node);
                    let (new_child, r, child_changed) = match res {
                        TransformResult::Unchanged(r) => (Some(node.clone()), r, false),
                        TransformResult::C(cn, r) => (Some(MNode::C(cn)), r, true),
                        TransformResult::L(l, r) => (Some(MNode::L(l)), r, true),
                        TransformResult::S(s, r) => (Some(MNode::S(s)), r, true),
                        TransformResult::Removed(r) => (None, r, true),
                    };
                    proof {
                        assert(new_child == nc);
                        assert(!child_changed ==> new_child == Some(*node));
                    }
                    reduced = reduce_op(&reduced, &r);
                    proof {
                        assert(*node == old_ch[p]);
                        red_t = c.lemma_reduced_child::<M, R, RO, F>(*reduce_op, *op, d, p, red_t, r, reduced);
                    }
                    if child_changed {
                        changed = true;
                    }
                    match new_child {
                        Some(n) => {
                            let ghost nd = n.view_at::<M>(d + 1).dom();
                            proof {
                                n.lemma_size_view::<M>(d + 1);
                                assert forall|k: K| #[trigger] n.lookup::<M>(k, d + 1) is Some implies hash_chunk(
                                    M::hash_of(k),
                                    d,
                                ) == p && c.lookup::<M>(k, d) is Some by {
                                    assert(transformed_entry(
                                        *op,
                                        k,
                                        node.lookup::<M>(k, d + 1),
                                        lookup_in::<K, V, M>(nc, k, d + 1),
                                    ));
                                }
                                assert(pre_keys.disjoint(nd)) by {
                                    assert forall|k: K| pre_keys.contains(k) implies !nd.contains(k) by {
                                        assert(child_lookup::<K, V, M>(pre_newc, k, d) is Some);
                                    }
                                }
                                vstd::set_lib::lemma_set_disjoint_lens(pre_keys, nd);
                                assert(pre_keys.union(nd).subset_of(c.view_at::<M>(d).dom()));
                                vstd::set_lib::lemma_len_subset(pre_keys.union(nd), c.view_at::<M>(d).dom());
                            }
                            size = size + n.size();
                            let bit = u32::nth_bit(index).unwrap();
                            proof {
                                lemma_only_bit(32, p);
                                assert(!pre_bits[p]);
                            }
                            bits_t = bits_t.bit_insert(bit).unwrap();
                            values_t.push(n);
                            proof {
                                newc = pre_newc.insert(p, n);
                                keys = pre_keys.union(nd);
                                lemma_count_set_bit(pre_bits, p, p);
                                lemma_count_split(pre_bits, p);
                                lemma_count_zero(pre_bits.skip(p));
                                assert(bits_t.bit_seq() == pre_bits.update(p, true));
                                assert forall|q: int| #[trigger] newc.contains_key(q) implies values_t@[rank(
                                    bits_t.bit_seq(),
                                    q,
                                ) as int] == newc[q] by {
                                    lemma_count_set_bit(pre_bits, p, q);
                                    if q != p {
                                        lemma_rank_lt_count(pre_bits, q);
                                    }
                                }
                                assert forall|k: K| #[trigger] keys.contains(k) <==> child_lookup::<K, V, M>(
                                    newc,
                                    k,
                                    d,
                                ) is Some by {
                                    if hash_chunk(M::hash_of(k), d) == p {
                                        if pre_keys.contains(k) {
                                            assert(child_lookup::<K, V, M>(pre_newc, k, d) is Some);
                                        }
                                    } else {
                                        assert(child_lookup::<K, V, M>(newc, k, d) == child_lookup::<K, V, M>(
                                            pre_newc,
                                            k,
                                            d,
                                        ));
                                    }
                                }
                            }
                        },
                        None => {},
                    }
                    proof {
                        assert forall|k: K| hash_chunk(M::hash_of(k), d) < index + 1 implies transformed_entry(
                            *op,
                            k,
                            #[trigger] c.lookup::<M>(k, d),
                            child_lookup::<K, V, M>(newc, k, d),
                        ) by {
                            if hash_chunk(M::hash_of(k), d) == p {
                                assert(transformed_entry(
                                    *op,
                                    k,
                                    node.lookup::<M>(k, d + 1),
                                    lookup_in::<K, V, M>(nc, k, d + 1),
                                ));
                            } else {
                                assert(child_lookup::<K, V, M>(newc, k, d) == child_lookup::<K, V, M>(pre_newc, k, d));
                            }
                        }
                    }
                },
                Err(_) => {
                    proof {
                        assert(keys_before::<K, V, M>(c, d, p + 1) =~= keys_before::<K, V, M>(c, d, p)) by {
                            assert forall|k: K| #[trigger] keys_before::<K, V, M>(c, d, p + 1).contains(k) implies keys_before::<
                                K,
                                V,
                                M,
                            >(c, d, p).contains(k) by {
                                if hash_chunk(M::hash_of(k), d) == p {
                                    assert(!old_ch.contains_key(p));
                                }
                            }
                        }
                        assert forall|k: K| hash_chunk(M::hash_of(k), d) < index + 1 implies transformed_entry(
                            *op,
                            k,
                            #[trigger] c.lookup::<M>(k, d),
                            child_lookup::<K, V, M>(newc, k, d),
                        ) by {
                            if hash_chunk(M::hash_of(k), d) != p {
                                assert(hash_chunk(M::hash_of(k), d) < index);
                            }
                        }
                    }
                },
            }
            index = index + 1;
        }
        proof {
            assert(keys_before::<K, V, M>(c, d, 32) =~= node_keys::<K, V, M>(c, d)) by {
                assert forall|k: K| #[trigger] node_keys::<K, V, M>(c, d).contains(k) implies keys_before::<K, V, M>(
                    c,
                    d,
                    32,
                ).contains(k) by {
                    lemma_hash_chunk_range(M::hash_of(k), d);
                }
            }
            assert(red_t.combines(*reduce_op));
        }
        proof {
            assert forall|k: K| #[trigger] c.lookup::<M>(k, d) == c.lookup::<M>(k, d) implies transformed_entry(
                *op,
                k,
                c.lookup::<M>(k, d),
                child_lookup::<K, V, M>(newc, k, d),
            ) by {
                lemma_hash_chunk_range(M::hash_of(k), d);
            }
        }
        if !changed {
            proof {
                assert forall|k: K| #[trigger] child_lookup::<K, V, M>(newc, k, d) == c.lookup::<M>(k, d) by {
                    lemma_hash_chunk_range(M::hash_of(k), d);
                }
            }
            return TransformResult::Unchanged(reduced);
        }
        if values_t.len() == 0 {
            proof {
                lemma_count_zero(bits_t.bit_seq());
                assert forall|k: K| #[trigger] child_lookup::<K, V, M>(newc, k, d) is None by {
                    lemma_hash_chunk_range(M::hash_of(k), d);
                    let q = hash_chunk(M::hash_of(k), d);
                    if newc.contains_key(q) {
                        assert(bits_t.bit_seq()[q]);
                    }
                }
            }
            return TransformResult::Removed(reduced);
        }
        if values_t.len() == 1 {
            let ghost q = crate::bitseq::lemma_rank_onto(bits_t.bit_seq(), 0);
            proof {
                assert(newc.contains_key(q));
                assert forall|q2: int| #[trigger] newc.contains_key(q2) implies q2 == q by {
                    if q2 != q {
                        crate::bitseq::lemma_rank_injective(bits_t.bit_seq(), q, q2);
                        lemma_rank_lt_count(bits_t.bit_seq(), q2);
                    }
                }
            }
            match &values_t[0] {
                MNode::C(_) => {},
                MNode::L(l) => {
                    let ghost n = MNode::L(*l);
                    proof {
                        assert(n == newc[q]);
                        MNode::lemma_sole_child::<M>(newc, q, d);
                    }
                    return TransformResult::L(l.clone(), reduced);
                },
                MNode::S(s) => {
                    let ghost n = MNode::S(*s);
                    proof {
                        assert(n == newc[q]);
                        MNode::lemma_sole_child::<M>(newc, q, d);
                    }
                    return TransformResult::S(s.clone(), reduced);
                },
            }
        }
        let ghost vals = values_t@;
        let ghost bits_seq = bits_t.bit_seq();
        match new_bit_indexed_array(bits_t, values_t, size) {
            Ok(arr) => {
                let cn = CNode::new(arr);
                proof {
                    assert(cn.children() =~= newc);
                    let n = MNode::C(cn);
                    assert forall|k: K| #[trigger] n.lookup::<M>(k, d) == child_lookup::<K, V, M>(newc, k, d) by {
                    }
                    assert(n.view_at::<M>(d).dom() =~= keys);
                }
                TransformResult::C(cn, reduced)
            },
            Err(_) => {
                proof {
                    assert(false);
                }
                TransformResult::Removed(reduced)
            },
        }
    }
}

// ----------------------------------------------------------------------------
// Visiting
// ----------------------------------------------------------------------------

/// The operation may be run on every entry below `node` at depth `d`.
pub open spec fn visitable_below<K, V, Op: Fn(&K, &V), M: HasherBv<u64, K>>(op: Op, node: MNode<K, V>, d: nat) -> bool {
    forall|k: K| #[trigger] node.lookup::<M>(k, d) is Some ==> op.requires((&k, &node.lookup::<M>(k, d)->Some_0))
}

/// The operation has been run on every entry below `node` at depth `d`: its
/// postcondition holds of each key and the value stored for it.
pub open spec fn visited_below<K, V, Op: Fn(&K, &V), M: HasherBv<u64, K>>(op: Op, node: MNode<K, V>, d: nat) -> bool {
    forall|k: K| #[trigger] node.lookup::<M>(k, d) is Some ==> op.ensures((&k, &node.lookup::<M>(k, d)->Some_0), ())
}

impl<K, V> SNode<K, V> {
    /// Run the operation on the entry.
    pub fn visit<Op: Fn(&K, &V)>(&self, op: &Op)
        requires
            op.requires((&self.spec_key(), &self.spec_value())),
        ensures
            op.ensures((&self.spec_key(), &self.spec_value()), ()),
    {
        op(&self.key, &self.value);
    }
}

impl<K: Key, V> LNode<K, V> {
    /// Run the operation on every entry of the list, front first.
    pub fn visit<Op: Fn(&K, &V)>(&self, op: &Op)
        requires
            forall|i: int| 0 <= i < self.entries().len() ==> op.requires((&#[trigger] self.entries()[i].0, &self.entries()[i].1)),
        ensures
            forall|i: int| 0 <= i < self.entries().len() ==> op.ensures((&#[trigger] self.entries()[i].0, &self.entries()[i].1), ()),
        decreases self,
    {
        proof {
            assert(self.entries()[0] == (self.entry.spec_key(), self.entry.spec_value()));
            assert forall|i: int| 0 <= i < self.next.entries().len() implies op.requires((&#[trigger] self.next.entries()[i].0, &self.next.entries()[i].1)) by {
                assert(self.entries()[i + 1] == self.next.entries()[i]);
            }
        }
        self.entry.visit(op);
        match &self.next {
            LNodeNext::L(l) => {
                proof {
                    assert(l.entries() == self.next.entries());
                }
                l.visit(op)
            },
            LNodeNext::S(s) => {
                proof {
                    assert(self.next.entries()[0] == (s.spec_key(), s.spec_value()));
                }
                s.visit(op)
            },
        }
        proof {
            assert forall|i: int| 0 <= i < self.entries().len() implies op.ensures(
                (&#[trigger] self.entries()[i].0, &self.entries()[i].1),
                (),
            ) by {
                if i > 0 {
                    assert(self.entries()[i] == self.next.entries()[i - 1]);
                }
            }
        }
    }
}

impl<K: Key, V> CNode<K, V> {
    /// Run the operation on every entry below the node at `depth`, child after child.
    pub fn visit<M: HasherBv<u64, K>, Op: Fn(&K, &V)>(&self, op: &Op, depth: usize)
        requires
            MNode::C(*self).wf::<M>(depth as nat),
            visitable_below::<K, V, Op, M>(*op, MNode::C(*self), depth as nat),
        ensures
            visited_below::<K, V, Op, M>(*op, MNode::C(*self), depth as nat),
        decreases 13 - depth, 0nat,
    {
        let ghost c = MNode::C(*self);
        let ghost d = depth as nat;
        let n = self.nodes.len();
        let values = self.nodes.values();
        let mut i: usize = 0;
        while i < n
            invariant
                c == MNode::C(*self),
                d == depth as nat,
                c.wf::<M>(d),
                visitable_below::<K, V, Op, M>(*op, c, d),
                n == values@.len(),
                values@ == self.child_values(),
                n == count_set(self.child_bits()),
                i <= n,
                forall|j: int, k: K| #![trigger values@[j].lookup::<M>(k, d + 1)]
                    0 <= j < i && values@[j].lookup::<M>(k, d + 1) is Some ==> op.ensures(
                        (&k, &values@[j].lookup::<M>(k, d + 1)->Some_0),
                        (),
                    ),
            decreases n - i,
        {
            let ghost p = crate::bitseq::lemma_rank_onto(self.child_bits(), i as int);
            proof {
                assert(self.children().contains_key(p));
                assert(self.children()[p] == values@[i as int]);
                c.lemma_child::<M>(d, p);
                assert forall|k: K| #[trigger] values@[i as int].lookup::<M>(k, d + 1) is Some implies op.requires(
                    (&k, &values@[i as int].lookup::<M>(k, d + 1)->Some_0),
                ) by {
                    assert(c.lookup::<M>(k, d) == values@[i as int].lookup::<M>(k, d + 1));
                }
            }
            values[i].visit::<M, Op>(op, depth + 1);
            i = i + 1;
        }
        proof {
            assert forall|k: K| #[trigger] c.lookup::<M>(k, d) is Some implies op.ensures((&k, &c.lookup::<M>(k, d)->Some_0), ()) by {
                let p = hash_chunk(M::hash_of(k), d);
                assert(self.children().contains_key(p));
                c.lemma_child::<M>(d, p);
                crate::bitseq::lemma_rank_lt_count(self.child_bits(), p);
                let j = crate::bitseq::rank(self.child_bits(), p) as int;
                assert(self.children()[p] == values@[j]);
                assert(c.lookup::<M>(k, d) == values@[j].lookup::<M>(k, d + 1));
            }
        }
    }
}

impl<K: Key, V> MNode<K, V> {
    /// Run the operation on every entry below the node at `depth`.
    pub fn visit<M: HasherBv<u64, K>, Op: Fn(&K, &V)>(&self, op: &Op, depth: usize)
        requires
            self.wf::<M>(depth as nat),
            depth <= 13,
            visitable_below::<K, V, Op, M>(*op, *self, depth as nat),
        ensures
            visited_below::<K, V, Op, M>(*op, *self, depth as nat),
        decreases 13 - depth, 1nat,
    {
        match self {
            MNode::C(c) => c.visit::<M, Op>(op, depth),
            MNode::L(l) => {
                proof {
                    assert forall|i: int| 0 <= i < l.entries().len() implies op.requires((&#[trigger] l.entries()[i].0, &l.entries()[i].1)) by {
                        lemma_entries_lookup_at(l.entries(), i);
                        assert(self.lookup::<M>(l.entries()[i].0, depth as nat) is Some);
                    }
                }
                l.visit(op);
                proof {
                    assert forall|k: K| #[trigger] self.lookup::<M>(k, depth as nat) is Some implies op.ensures(
                        (&k, &self.lookup::<M>(k, depth as nat)->Some_0),
                        (),
                    ) by {
                        lemma_entries_lookup_some(l.entries(), k);
                        let i = choose|i: int|
                            0 <= i < l.entries().len() && l.entries()[i].0 == k && l.entries()[i].1 == entries_lookup(l.entries(), k)->Some_0;
                        assert(op.ensures((&l.entries()[i].0, &l.entries()[i].1), ()));
                    }
                }
            },
            MNode::S(s) => {
                proof {
                    assert(self.lookup::<M>(s.spec_key(), depth as nat) is Some);
                }
                s.visit(op)
            },
        }
    }
}

// ----------------------------------------------------------------------------
// Joint transformation
// ----------------------------------------------------------------------------

/// The outcome of transforming the entries below two nodes together: the left
/// node, the right node or both stand unchanged, or a new node, or nothing.
pub enum JointTransformResult<K, V, R> {
    UnchangedLR(R),
    UnchangedL(R),
    UnchangedR(R),
    C(CNode<K, V>, R),
    L(Arc<LNode<K, V>>, R),
    S(Arc<SNode<K, V>>, R),
    Removed(R),
}

impl<K, V, R> JointTransformResult<K, V, R> {
    /// The reduced secondary value.
    pub open spec fn reduced(self) -> R {
        match self {
            JointTransformResult::UnchangedLR(r) => r,
            JointTransformResult::UnchangedL(r) => r,
            JointTransformResult::UnchangedR(r) => r,
            JointTransformResult::C(_, r) => r,
            JointTransformResult::L(_, r) => r,
            JointTransformResult::S(_, r) => r,
            JointTransformResult::Removed(r) => r,
        }
    }

    /// The node that the joint transformation of `left` and `right` gives, or
    /// `None` when no entry is left.
    pub open spec fn node_after(self, left: MNode<K, V>, right: MNode<K, V>) -> Option<MNode<K, V>> {
        match self {
            JointTransformResult::UnchangedLR(_) => Some(left),
            JointTransformResult::UnchangedL(_) => Some(left),
            JointTransformResult::UnchangedR(_) => Some(right),
            JointTransformResult::C(c, _) => Some(MNode::C(c)),
            JointTransformResult::L(l, _) => Some(MNode::L(l)),
            JointTransformResult::S(s, _) => Some(MNode::S(s)),
            JointTransformResult::Removed(_) => None,
        }
    }
}

/// The node that an optional joint outcome gives.
pub open spec fn joint_node_after<K, V, R>(
    jr: Option<JointTransformResult<K, V, R>>,
    left: MNode<K, V>,
    right: MNode<K, V>,
) -> Option<MNode<K, V>> {
    match jr {
        Some(j) => j.node_after(left, right),
        None => None,
    }
}

/// Each transformation may be run on the entry for `k`, as it is run: the
/// joint one on an entry of both sides, a side's own on an entry of that side only.
pub open spec fn joint_accepts_entry<K, V, R, B, LF, RF>(
    both_op: MapJointTransform<R, B>,
    left_op: MapTransform<R, LF>,
    right_op: MapTransform<R, RF>,
    k: K,
    left: Option<V>,
    right: Option<V>,
) -> bool where
    B: Fn(&K, &V, &K, &V) -> MapJointTransformResult<V, R>,
    LF: Fn(&K, &V) -> MapTransformResult<V, R>,
    RF: Fn(&K, &V) -> MapTransformResult<V, R>,
 {
    match left {
        Some(v) => match right {
            Some(w) => both_op.accepts(k, v, k, w),
            None => left_op.accepts(k, v),
        },
        None => match right {
            Some(w) => right_op.accepts(k, w),
            None => true,
        },
    }
}

/// The transformations may be run on the entries below `left` and `right` at depth `d`.
pub open spec fn joint_accepts_below<K, V, R, B, LF, RF, M: HasherBv<u64, K>>(
    both_op: MapJointTransform<R, B>,
    left_op: MapTransform<R, LF>,
    right_op: MapTransform<R, RF>,
    left: MNode<K, V>,
    right: MNode<K, V>,
    d: nat,
) -> bool where
    B: Fn(&K, &V, &K, &V) -> MapJointTransformResult<V, R>,
    LF: Fn(&K, &V) -> MapTransformResult<V, R>,
    RF: Fn(&K, &V) -> MapTransformResult<V, R>,
 {
    forall|k: K|
        #![trigger left.lookup::<M>(k, d)]
        #![trigger right.lookup::<M>(k, d)]
        joint_accepts_entry(both_op, left_op, right_op, k, left.lookup::<M>(k, d), right.lookup::<M>(k, d))
}

/// `new` is the joint transformation of the nodes `left` and `right` at depth `d`.
pub open spec fn joint_transformed_node<K, V, R, B, LF, RF, M: HasherBv<u64, K>>(
    both_op: MapJointTransform<R, B>,
    left_op: MapTransform<R, LF>,
    right_op: MapTransform<R, RF>,
    left: MNode<K, V>,
    right: MNode<K, V>,
    new: Option<MNode<K, V>>,
    d: nat,
) -> bool where
    B: Fn(&K, &V, &K, &V) -> MapJointTransformResult<V, R>,
    LF: Fn(&K, &V) -> MapTransformResult<V, R>,
    RF: Fn(&K, &V) -> MapTransformResult<V, R>,
 {
    forall|k: K|
        #![trigger left.lookup::<M>(k, d)]
        #![trigger right.lookup::<M>(k, d)]
        #![trigger lookup_in::<K, V, M>(new, k, d)]
        joint_transformed_entry(
            both_op,
            left_op,
            right_op,
            k,
            left.lookup::<M>(k, d),
            right.lookup::<M>(k, d),
            lookup_in::<K, V, M>(new, k, d),
        )
}

/// The entries of a sequence of single-entry nodes.
pub open spec fn snode_entries<K, V>(v: Seq<Arc<SNode<K, V>>>) -> Seq<(K, V)> {
    Seq::new(v.len(), |i: int| (v[i].spec_key(), v[i].spec_value()))
}

/// Looking up in a list with an entry at the back.
pub proof fn lemma_push_lookup<K, V>(es: Seq<(K, V)>, e: (K, V), k: K)
    ensures
        entries_lookup(es.push(e), k) == if entries_lookup(es, k) is Some {
            entries_lookup(es, k)
        } else if e.0 == k {
            Some(e.1)
        } else {
            None
        },
    decreases es.len(),
{
    if es.len() == 0 {
        assert(es.push(e)[0] == e);
        assert(es.push(e).drop_first().len() == 0);
        assert(entries_lookup(es.push(e).drop_first(), k) is None);
    } else {
        assert(es.push(e)[0] == es[0]);
        assert(es.push(e).drop_first() =~= es.drop_first().push(e));
        lemma_push_lookup(es.drop_first(), e, k);
    }
}

/// The keys of a list with an entry at the back.
pub proof fn lemma_push_keys<K, V>(es: Seq<(K, V)>, e: (K, V))
    requires
        entries_keys(es).no_duplicates(),
        !entries_keys(es).contains(e.0),
    ensures
        entries_keys(es.push(e)) == entries_keys(es).push(e.0),
        entries_keys(es.push(e)).no_duplicates(),
{
    assert(entries_keys(es.push(e)) =~= entries_keys(es).push(e.0));
    let ks = entries_keys(es.push(e));
    assert forall|i: int, j: int| 0 <= i < ks.len() && 0 <= j < ks.len() && i != j implies ks[i] != ks[j] by {
        if i < es.len() && j < es.len() {
            assert(ks[i] == entries_keys(es)[i]);
            assert(ks[j] == entries_keys(es)[j]);
        } else if i < es.len() {
            assert(ks[i] == entries_keys(es)[i]);
        } else if j < es.len() {
            assert(ks[j] == entries_keys(es)[j]);
        }
    }
}

impl<K, V> MNode<K, V> {
    /// The entries of a single-entry or list node, one single-entry node each.
    pub fn snodes(&self) -> (r: Vec<Arc<SNode<K, V>>>)
        requires
            self is S || self is L,
        ensures
            snode_entries(r@) == self.flat_entries(),
    {
        match self {
            MNode::S(s) => {
                let mut out: Vec<Arc<SNode<K, V>>> = Vec::new();
                out.push(s.clone());
                proof {
                    assert(snode_entries(out@) =~= self.flat_entries());
                }
                out
            },
            MNode::L(l) => {
                let mut out: Vec<Arc<SNode<K, V>>> = Vec::new();
                let mut cur: &Arc<LNode<K, V>> = l;
                proof {
                    assert(snode_entries(out@) + cur.entries() =~= l.entries());
                }
                loop
                    invariant_except_break
                        snode_entries(out@) + cur.entries() == l.entries(),
                    ensures
                        snode_entries(out@) == l.entries(),
                    decreases cur.entries().len(),
                {
                    let ghost pre = snode_entries(out@);
                    out.push(cur.entry.clone());
                    proof {
                        assert(snode_entries(out@) =~= pre.push((cur.entry.spec_key(), cur.entry.spec_value())));
                    }
                    match &cur.next {
                        LNodeNext::L(n) => {
                            proof {
                                assert(snode_entries(out@) + n.entries() =~= pre + cur.entries());
                            }
                            cur = n;
                        },
                        LNodeNext::S(s) => {
                            let ghost mid = snode_entries(out@);
                            out.push(s.clone());
                            proof {
                                assert(snode_entries(out@) =~= mid.push((s.spec_key(), s.spec_value())));
                                assert(snode_entries(out@) =~= pre + cur.entries());
                            }
                            break;
                        },
                    }
                }
                out
            },
            MNode::C(_) => {
                proof {
                    assert(false);
                }
                Vec::new()
            },
        }
    }

    /// A single-entry or list node holding the entries of `v`, or `None` when
    /// `v` is empty.
    pub fn from_snodes(v: &Vec<Arc<SNode<K, V>>>) -> (r: Option<MNode<K, V>>)
        ensures
            match r {
                Some(n) => {
                    &&& n is S || n is L
                    &&& v.len() == 1 ==> n is S
                    &&& n.flat_entries() == snode_entries(v@)
                    &&& n matches MNode::L(l) ==> l.sizes_ok()
                },
                None => v.len() == 0,
            },
    {
        let n = v.len();
        if n == 0 {
            return None;
        }
        let mut next = LNodeNext::S(v[n - 1].clone());
        let mut i: usize = n - 1;
        proof {
            assert(next.entries() =~= snode_entries(v@).subrange(i as int, n as int));
        }
        while i > 0
            invariant
                n == v.len(),
                i < n,
                next.entries() == snode_entries(v@).subrange(i as int, n as int),
                next.sizes_ok(),
                i < n - 1 ==> next is L,
                i == n - 1 ==> next is S,
            decreases i,
        {
            i = i - 1;
            let ghost pre = next.entries();
            let l = LNode::new(v[i].clone(), next);
            next = LNodeNext::L(l);
            proof {
                assert(next.entries() =~= snode_entries(v@).subrange(i as int, n as int));
            }
        }
        proof {
            assert(snode_entries(v@).subrange(0, n as int) =~= snode_entries(v@));
        }
        let ghost last = next;
        let r = next.into_node();
        proof {
            match last {
                LNodeNext::L(l) => {
                    assert(r == MNode::L(l));
                    assert(r.flat_entries() == last.entries());
                },
                LNodeNext::S(s) => {
                    assert(r == MNode::S(s));
                    assert(r.flat_entries() == last.entries());
                },
            }
        }
        Some(r)
    }
}

/// The position of the entry with key `key` among single-entry nodes, if any.
fn find_snode<K: Key, V>(v: &Vec<Arc<SNode<K, V>>>, key: &K) -> (r: Option<usize>)
    ensures
        match r {
            Some(j) => j < v.len() && v@[j as int].spec_key() == *key,
            None => !entries_keys(snode_entries(v@)).contains(*key),
        },
{
    let mut j: usize = 0;
    while j < v.len()
        invariant
            j <= v.len(),
            forall|q: int| 0 <= q < j ==> v@[q].spec_key() != *key,
        decreases v.len() - j,
    {
        if v[j].key().key_eq(key) {
            return Some(j);
        }
        j = j + 1;
    }
    proof {
        if entries_keys(snode_entries(v@)).contains(*key) {
            let q = choose|q: int| 0 <= q < entries_keys(snode_entries(v@)).len() && entries_keys(snode_entries(v@))[q] == *key;
            assert(v@[q].spec_key() == *key);
        }
    }
    None
}

impl<K: Key, V> MNode<K, V> {
    /// The joint transformation of two single-entry or list nodes whose keys all
    /// have one hash, entry by entry: the left entries first, each with its
    /// right partner if there is one, then the right entries without a partner.
    pub fn joint_flat<
        M: HasherBv<u64, K>,
        R: Clone + Default,
        RO: Fn(&R, &R) -> R,
        B: Fn(&K, &V, &K, &V) -> MapJointTransformResult<V, R>,
        LF: Fn(&K, &V) -> MapTransformResult<V, R>,
        RF: Fn(&K, &V) -> MapTransformResult<V, R>,
    >(
        &self,
        right: &MNode<K, V>,
        reduce_op: &RO,
        both_op: &MapJointTransform<R, B>,
        left_op: &MapTransform<R, LF>,
        right_op: &MapTransform<R, RF>,
        depth: usize,
    ) -> (res: JointTransformResult<K, V, R>)
        requires
            self is S || self is L,
            right is S || right is L,
            self.wf::<M>(depth as nat),
            right.wf::<M>(depth as nat),
            self.flat_hash::<M>() == right.flat_hash::<M>(),
            joint_accepts_below::<K, V, R, B, LF, RF, M>(*both_op, *left_op, *right_op, *self, *right, depth as nat),
            reduces_all(*reduce_op),
        ensures
            !(res is C),
            res.node_after(*self, *right) matches Some(n) ==> n.wf::<M>(depth as nat),
            joint_transformed_node::<K, V, R, B, LF, RF, M>(
                *both_op,
                *left_op,
                *right_op,
                *self,
                *right,
                res.node_after(*self, *right),
                depth as nat,
            ),
            res is UnchangedLR ==> joint_transformed_node::<K, V, R, B, LF, RF, M>(
                *both_op,
                *left_op,
                *right_op,
                *self,
                *right,
                Some(*right),
                depth as nat,
            ),
            joint_reduced_at(
                *reduce_op,
                *both_op,
                *left_op,
                *right_op,
                node_lookup::<K, V, M>(*self, depth as nat),
                node_lookup::<K, V, M>(*right, depth as nat),
                res.reduced(),
            ),
    {
        let ghost d = depth as nat;
        let ghost les = self.flat_entries();
        let ghost res_ = right.flat_entries();
        proof {
            assert forall|k: K| #[trigger] self.lookup::<M>(k, d) == entries_lookup(les, k) by {
                self.lemma_flat_lookup::<M>(k, d);
            }
            assert forall|k: K| #[trigger] right.lookup::<M>(k, d) == entries_lookup(res_, k) by {
                right.lemma_flat_lookup::<M>(k, d);
            }
            assert forall|k: K| #[trigger] entries_lookup(les, k) == entries_lookup(les, k) implies joint_accepts_entry(
                *both_op,
                *left_op,
                *right_op,
                k,
                entries_lookup(les, k),
                entries_lookup(res_, k),
            ) by {
                assert(self.lookup::<M>(k, d) == entries_lookup(les, k));
                assert(right.lookup::<M>(k, d) == entries_lookup(res_, k));
            }
            if let MNode::S(s) = self {
                assert(entries_keys(les) =~= seq![s.spec_key()]);
            }
            if let MNode::S(s) = right {
                assert(entries_keys(res_) =~= seq![s.spec_key()]);
            }
        }
        let lefts = self.snodes();
        let rights = right.snodes();
        let mut out: Vec<Arc<SNode<K, V>>> = Vec::new();
        let mut unchanged_l = true;
        let mut unchanged_r = true;
        let mut reduced = R::default();
        let ghost mut done: Set<K> = Set::empty();
        let ghost jok = joint_entries_ok(*both_op, *left_op, *right_op, list_lookup(les), list_lookup(res_));
        let ghost jot = joint_others_ok(*both_op, *left_op, *right_op);
        let ghost mut red_t: Reduction<K, R> = Reduction::Other(reduced);
        proof {
            assert(entries_keys(snode_entries(out@)) =~= Seq::<K>::empty());
            lemma_fits_other(reduced, *reduce_op, jok, jot);
        }
        let mut i: usize = 0;
        while i < lefts.len()
            invariant
                i <= lefts.len(),
                snode_entries(lefts@) == les,
                snode_entries(rights@) == res_,
                entries_keys(les).no_duplicates(),
                entries_keys(res_).no_duplicates(),
                forall|k: K| #[trigger]
                    entries_lookup(les, k) == entries_lookup(les, k) ==> joint_accepts_entry(
                        *both_op,
                        *left_op,
                        *right_op,
                        k,
                        entries_lookup(les, k),
                        entries_lookup(res_, k),
                    ),
                reduces_all(*reduce_op),
                red_t.value() == reduced,
                reduction_fits(red_t, *reduce_op, done, jok, jot),
                jok == joint_entries_ok(*both_op, *left_op, *right_op, list_lookup(les), list_lookup(res_)),
                jot == joint_others_ok(*both_op, *left_op, *right_op),
                entries_keys(snode_entries(out@)).no_duplicates(),
                forall|k: K| #[trigger] entries_lookup(snode_entries(out@), k) is Some ==> done.contains(k),
                forall|k: K| #[trigger] done.contains(k) ==> entries_lookup(les, k) is Some,
                forall|j: int| i <= j < les.len() ==> !done.contains(#[trigger] les[j].0),
                forall|j: int| 0 <= j < i ==> done.contains(#[trigger] les[j].0),
                forall|k: K| #[trigger]
                    done.contains(k) ==> joint_transformed_entry(
                        *both_op,
                        *left_op,
                        *right_op,
                        k,
                        entries_lookup(les, k),
                        entries_lookup(res_, k),
                        entries_lookup(snode_entries(out@), k),
                    ),
                unchanged_l ==> forall|k: K| #[trigger]
                    done.contains(k) ==> joint_transformed_entry(
                        *both_op,
                        *left_op,
                        *right_op,
                        k,
                        entries_lookup(les, k),
                        entries_lookup(res_, k),
                        entries_lookup(les, k),
                    ),
                unchanged_r ==> forall|k: K| #[trigger]
                    done.contains(k) ==> joint_transformed_entry(
                        *both_op,
                        *left_op,
                        *right_op,
                        k,
                        entries_lookup(les, k),
                        entries_lookup(res_, k),
                        entries_lookup(res_, k),
                    ),
            decreases lefts.len() - i,
        {
            let e = &lefts[i];
            let ghost key = e.spec_key();
            let ghost value = e.spec_value();
            let ghost os = snode_entries(out@);
            let ghost pre_done = done;
            let ghost mut pushed: Option<V> = None;
            proof {
                assert(les[i as int] == (key, value));
                lemma_entries_lookup_at(les, i as int);
                assert(!done.contains(key));
                assert(entries_lookup(os, key) is None);
                assert(joint_accepts_entry(*both_op, *left_op, *right_op, key, entries_lookup(les, key), entries_lookup(res_, key)));
            }
            match find_snode(&rights, e.key()) {
                Some(j) => {
                    let rn = &rights[j];
                    let ghost w = rn.spec_value();
                    proof {
                        assert(res_[j as int] == (key, w));
                        lemma_entries_lookup_at(res_, j as int);
                    }
                    let t = both_op.call(e.key(), e.value(), rn.key(), rn.value());
                    proof {
                        assert(both_op.gives(key, value, key, w, t));
                    }
                    let r = match t {
                        MapJointTransformResult::UnchangedLR(r) => {
                            out.push(e.clone());
                            proof {
                                pushed = Some(value);
                            }
                            r
                        },
                        MapJointTransformResult::UnchangedL(r) => {
                            out.push(e.clone());
                            unchanged_r = false;
                            proof {
                                pushed = Some(value);
                            }
                            r
                        },
                        MapJointTransformResult::UnchangedR(r) => {
                            out.push(rn.clone());
                            unchanged_l = false;
                            proof {
                                pushed = Some(w);
                            }
                            r
                        },
                        MapJointTransformResult::Transformed(v, r) => {
                            let sn = SNode::new(e.key().key_clone(), v);
                            proof {
                                pushed = Some(sn.spec_value());
                            }
                            out.push(sn);
                            unchanged_l = false;
                            unchanged_r = false;
                            r
                        },
                        MapJointTransformResult::Removed(r) => {
                            unchanged_l = false;
                            unchanged_r = false;
                            r
                        },
                    };
                    reduced = reduce_op(&reduced, &r);
                    proof {
                        assert(list_lookup(les)(key) == Some(value));
                        assert(list_lookup(res_)(key) == Some(w));
                        assert(both_op is Generic ==> both_op.gives(key, value, key, w, t) && t.reduced() == r);
                        assert(jok(key, r));
                        red_t = lemma_fits_add_entry(red_t, *reduce_op, pre_done, key, r, reduced, jok, jot);
                        assert(t.allows(value, w, pushed));
                        assert(joint_transformed_entry(*both_op, *left_op, *right_op, key, Some(value), Some(w), pushed));
                        if unchanged_l {
                            assert(t.allows(value, w, Some(value)));
                        }
                        if unchanged_r {
                            assert(t.allows(value, w, Some(w)));
                        }
                    }
                },
                None => {
                    proof {
                        lemma_entries_lookup_some(res_, key);
                    }
                    let t = left_op.call(e.key(), e.value());
                    proof {
                        assert(left_op.gives(key, value, t));
                    }
                    let r = match t {
                        MapTransformResult::Unchanged(r) => {
                            out.push(e.clone());
                            unchanged_r = false;
                            proof {
                                pushed = Some(value);
                            }
                            r
                        },
                        MapTransformResult::Transformed(v, r) => {
                            let sn = SNode::new(e.key().key_clone(), v);
                            proof {
                                pushed = Some(sn.spec_value());
                            }
                            out.push(sn);
                            unchanged_l = false;
                            unchanged_r = false;
                            r
                        },
                        MapTransformResult::Removed(r) => {
                            unchanged_l = false;
                            r
                        },
                    };
                    reduced = reduce_op(&reduced, &r);
                    proof {
                        assert(list_lookup(les)(key) == Some(value));
                        assert(list_lookup(res_)(key) is None);
                        assert(left_op matches MapTransform::Generic(f) ==> f.ensures((&key, &value), t));
                        assert(jok(key, r));
                        red_t = lemma_fits_add_entry(red_t, *reduce_op, pre_done, key, r, reduced, jok, jot);
                        assert(t.applied_to(value) == pushed);
                        assert(joint_transformed_entry(*both_op, *left_op, *right_op, key, Some(value), None, pushed));
                    }
                },
            }
            proof {
                done = pre_done.insert(key);
                match pushed {
                    Some(x) => {
                        assert(snode_entries(out@) =~= os.push((key, x)));
                        lemma_entries_lookup_some(os, key);
                        lemma_push_keys(os, (key, x));
                        assert forall|k: K| #[trigger] entries_lookup(snode_entries(out@), k) == if k == key {
                            pushed
                        } else {
                            entries_lookup(os, k)
                        } by {
                            lemma_push_lookup(os, (key, x), k);
                        }
                    },
                    None => {
                        assert(snode_entries(out@) =~= os);
                    },
                }
                assert forall|j: int| i + 1 <= j < les.len() implies !done.contains(#[trigger] les[j].0) by {
                    assert(entries_keys(les)[j] == les[j].0);
                    assert(entries_keys(les)[i as int] == les[i as int].0);
                }
            }
            i = i + 1;
        }
        proof {
            assert forall|q: int| 0 <= q < res_.len() && #[trigger] done.contains(res_[q].0) implies entries_lookup(
                les,
                res_[q].0,
            ) is Some by {
            }
        }
        let mut j: usize = 0;
        while j < rights.len()
            invariant
                j <= rights.len(),
                snode_entries(lefts@) == les,
                snode_entries(rights@) == res_,
                entries_keys(les).no_duplicates(),
                entries_keys(res_).no_duplicates(),
                forall|k: K| #[trigger]
                    entries_lookup(les, k) == entries_lookup(les, k) ==> joint_accepts_entry(
                        *both_op,
                        *left_op,
                        *right_op,
                        k,
                        entries_lookup(les, k),
                        entries_lookup(res_, k),
                    ),
                reduces_all(*reduce_op),
                red_t.value() == reduced,
                reduction_fits(red_t, *reduce_op, done, jok, jot),
                jok == joint_entries_ok(*both_op, *left_op, *right_op, list_lookup(les), list_lookup(res_)),
                jot == joint_others_ok(*both_op, *left_op, *right_op),
                entries_keys(snode_entries(out@)).no_duplicates(),
                forall|k: K| #[trigger] entries_lookup(snode_entries(out@), k) is Some ==> done.contains(k),
                forall|k: K| #[trigger]
                    done.contains(k) ==> entries_lookup(les, k) is Some || entries_lookup(res_, k) is Some,
                forall|q: int| 0 <= q < les.len() ==> done.contains(#[trigger] les[q].0),
                forall|q: int| 0 <= q < j ==> done.contains(#[trigger] res_[q].0),
                forall|q: int|
                    j <= q < res_.len() ==> (#[trigger] done.contains(res_[q].0) ==> entries_lookup(les, res_[q].0) is Some),
                forall|k: K| #[trigger]
                    done.contains(k) ==> joint_transformed_entry(
                        *both_op,
                        *left_op,
                        *right_op,
                        k,
                        entries_lookup(les, k),
                        entries_lookup(res_, k),
                        entries_lookup(snode_entries(out@), k),
                    ),
                unchanged_l ==> forall|k: K| #[trigger]
                    done.contains(k) ==> joint_transformed_entry(
                        *both_op,
                        *left_op,
                        *right_op,
                        k,
                        entries_lookup(les, k),
                        entries_lookup(res_, k),
                        entries_lookup(les, k),
                    ),
                unchanged_r ==> forall|k: K| #[trigger]
                    done.contains(k) ==> joint_transformed_entry(
                        *both_op,
                        *left_op,
                        *right_op,
                        k,
                        entries_lookup(les, k),
                        entries_lookup(res_, k),
                        entries_lookup(res_, k),
                    ),
            decreases rights.len() - j,
        {
            let rn = &rights[j];
            let ghost key = rn.spec_key();
            let ghost w = rn.spec_value();
            let ghost os = snode_entries(out@);
            let ghost pre_done = done;
            let ghost mut pushed: Option<V> = None;
            proof {
                assert(res_[j as int] == (key, w));
                lemma_entries_lookup_at(res_, j as int);
            }
            match find_snode(&lefts, rn.key()) {
                Some(idx) => {
                    proof {
                        assert(les[idx as int].0 == key);
                    }
                },
                None => {
                    proof {
                        lemma_entries_lookup_some(les, key);
                        assert(!done.contains(key));
                        assert(entries_lookup(os, key) is None);
                        assert(joint_accepts_entry(*both_op, *left_op, *right_op, key, entries_lookup(les, key), entries_lookup(res_, key)));
                    }
                    let t = right_op.call(rn.key(), rn.value());
                    proof {
                        assert(right_op.gives(key, w, t));
                    }
                    let r = match t {
                        MapTransformResult::Unchanged(r) => {
                            out.push(rn.clone());
                            unchanged_l = false;
                            proof {
                                pushed = Some(w);
                            }
                            r
                        },
                        MapTransformResult::Transformed(v, r) => {
                            let sn = SNode::new(rn.key().key_clone(), v);
                            proof {
                                pushed = Some(sn.spec_value());
                            }
                            out.push(sn);
                            unchanged_l = false;
                            unchanged_r = false;
                            r
                        },
                        MapTransformResult::Removed(r) => {
                            unchanged_r = false;
                            r
                        },
                    };
                    reduced = reduce_op(&reduced, &r);
                    proof {
                        assert(list_lookup(res_)(key) == Some(w));
                        assert(list_lookup(les)(key) is None);
                        assert(right_op matches MapTransform::Generic(f) ==> f.ensures((&key, &w), t));
                        assert(jok(key, r));
                        red_t = lemma_fits_add_entry(red_t, *reduce_op, pre_done, key, r, reduced, jok, jot);
                        assert(t.applied_to(w) == pushed);
                        assert(joint_transformed_entry(*both_op, *left_op, *right_op, key, None, Some(w), pushed));
                        done = pre_done.insert(key);
                        match pushed {
                            Some(x) => {
                                assert(snode_entries(out@) =~= os.push((key, x)));
                                lemma_entries_lookup_some(os, key);
                                lemma_push_keys(os, (key, x));
                                assert forall|k: K| #[trigger] entries_lookup(snode_entries(out@), k) == if k == key {
                                    pushed
                                } else {
                                    entries_lookup(os, k)
                                } by {
                                    lemma_push_lookup(os, (key, x), k);
                                }
                            },
                            None => {
                                assert(snode_entries(out@) =~= os);
                            },
                        }
                        assert forall|q: int| j + 1 <= q < res_.len() && #[trigger] done.contains(res_[q].0)
                            implies entries_lookup(les, res_[q].0) is Some by {
                            assert(entries_keys(res_)[q] == res_[q].0);
                            assert(entries_keys(res_)[j as int] == res_[j as int].0);
                        }
                    }
                },
            }
            j = j + 1;
        }
        proof {
            assert forall|k: K| !done.contains(k) implies entries_lookup(les, k) is None && entries_lookup(res_, k) is None
                && #[trigger] entries_lookup(snode_entries(out@), k) is None by {
                lemma_entries_lookup_some(les, k);
                lemma_entries_lookup_some(res_, k);
                if entries_lookup(les, k) is Some {
                    let q = choose|q: int| 0 <= q < les.len() && les[q].0 == k && les[q].1 == entries_lookup(les, k)->Some_0;
                    assert(done.contains(les[q].0));
                }
                if entries_lookup(res_, k) is Some {
                    let q = choose|q: int| 0 <= q < res_.len() && res_[q].0 == k && res_[q].1 == entries_lookup(res_, k)->Some_0;
                    assert(done.contains(res_[q].0));
                }
            }
        }
        proof {
            assert forall|k: K|
                !done.contains(k) implies #[trigger] entries_lookup(les, k) is None && entries_lookup(res_, k) is None by {
                assert(entries_lookup(snode_entries(out@), k) is None);
            }
            assert(list_lookup(les) =~= node_lookup::<K, V, M>(*self, d));
            assert(list_lookup(res_) =~= node_lookup::<K, V, M>(*right, d));
            assert(done =~= lookup_keys(list_lookup(les)).union(lookup_keys(list_lookup(res_)))) by {
                assert forall|k: K| #[trigger] done.contains(k) implies list_lookup(les)(k) is Some || list_lookup(res_)(k) is Some by {
                }
            }
            assert(red_t.combines(*reduce_op));
        }
        if unchanged_l && unchanged_r {
            proof {
                self.lemma_joint_flat_same::<M, R, B, LF, RF>(*right, *both_op, *left_op, *right_op, *self, done, d);
                self.lemma_joint_flat_same::<M, R, B, LF, RF>(*right, *both_op, *left_op, *right_op, *right, done, d);
            }
            return JointTransformResult::UnchangedLR(reduced);
        }
        if unchanged_l {
            proof {
                self.lemma_joint_flat_same::<M, R, B, LF, RF>(*right, *both_op, *left_op, *right_op, *self, done, d);
            }
            return JointTransformResult::UnchangedL(reduced);
        }
        if unchanged_r {
            proof {
                self.lemma_joint_flat_same::<M, R, B, LF, RF>(*right, *both_op, *left_op, *right_op, *right, done, d);
            }
            return JointTransformResult::UnchangedR(reduced);
        }
        let ghost os = snode_entries(out@);
        match MNode::from_snodes(&out) {
            None => {
                proof {
                    assert forall|k: K| #[trigger] entries_lookup(os, k) is None by {
                        assert(os.len() == 0);
                    }
                    self.lemma_joint_flat_new::<M, R, B, LF, RF>(*right, *both_op, *left_op, *right_op, None, os, done, d);
                }
                JointTransformResult::Removed(reduced)
            },
            Some(MNode::S(s)) => {
                proof {
                    self.lemma_joint_flat_new::<M, R, B, LF, RF>(*right, *both_op, *left_op, *right_op, Some(MNode::S(s)), os, done, d);
                }
                JointTransformResult::S(s, reduced)
            },
            Some(MNode::L(l)) => {
                proof {
                    self.lemma_joint_flat_new::<M, R, B, LF, RF>(*right, *both_op, *left_op, *right_op, Some(MNode::L(l)), os, done, d);
                }
                JointTransformResult::L(l, reduced)
            },
            Some(MNode::C(_)) => {
                proof {
                    assert(false);
                }
                JointTransformResult::Removed(reduced)
            },
        }
    }
}

impl<K, V> MNode<K, V> {
    /// The joint transformation of two single-entry or list nodes is one of
    /// them, `n`, when each key held by either side may hold what `n` holds.
    proof fn lemma_joint_flat_same<
        M: HasherBv<u64, K>,
        R,
        B: Fn(&K, &V, &K, &V) -> MapJointTransformResult<V, R>,
        LF: Fn(&K, &V) -> MapTransformResult<V, R>,
        RF: Fn(&K, &V) -> MapTransformResult<V, R>,
    >(
        self,
        right: MNode<K, V>,
        both_op: MapJointTransform<R, B>,
        left_op: MapTransform<R, LF>,
        right_op: MapTransform<R, RF>,
        n: MNode<K, V>,
        done: Set<K>,
        d: nat,
    )
        requires
            self is S || self is L,
            right is S || right is L,
            n == self || n == right,
            forall|k: K| #[trigger] self.lookup::<M>(k, d) == entries_lookup(self.flat_entries(), k),
            forall|k: K| #[trigger] right.lookup::<M>(k, d) == entries_lookup(right.flat_entries(), k),
            forall|k: K|
                !done.contains(k) ==> #[trigger] entries_lookup(self.flat_entries(), k) is None && entries_lookup(
                    right.flat_entries(),
                    k,
                ) is None,
            forall|k: K| #[trigger]
                done.contains(k) ==> joint_transformed_entry(
                    both_op,
                    left_op,
                    right_op,
                    k,
                    entries_lookup(self.flat_entries(), k),
                    entries_lookup(right.flat_entries(), k),
                    entries_lookup(n.flat_entries(), k),
                ),
        ensures
            joint_transformed_node::<K, V, R, B, LF, RF, M>(both_op, left_op, right_op, self, right, Some(n), d),
    {
        assert forall|k: K| joint_transformed_entry(
            both_op,
            left_op,
            right_op,
            k,
            #[trigger] self.lookup::<M>(k, d),
            right.lookup::<M>(k, d),
            lookup_in::<K, V, M>(Some(n), k, d),
        ) by {
            n.lemma_flat_lookup::<M>(k, d);
            if !done.contains(k) {
                assert(entries_lookup(self.flat_entries(), k) is None);
            }
        }
    }

    /// The joint transformation of two single-entry or list nodes of one hash is
    /// the node of the entries `os` when each key may hold what `os` holds.
    proof fn lemma_joint_flat_new<
        M: HasherBv<u64, K>,
        R,
        B: Fn(&K, &V, &K, &V) -> MapJointTransformResult<V, R>,
        LF: Fn(&K, &V) -> MapTransformResult<V, R>,
        RF: Fn(&K, &V) -> MapTransformResult<V, R>,
    >(
        self,
        right: MNode<K, V>,
        both_op: MapJointTransform<R, B>,
        left_op: MapTransform<R, LF>,
        right_op: MapTransform<R, RF>,
        new: Option<MNode<K, V>>,
        os: Seq<(K, V)>,
        done: Set<K>,
        d: nat,
    )
        requires
            self is S || self is L,
            right is S || right is L,
            self.wf::<M>(d),
            right.wf::<M>(d),
            self.flat_hash::<M>() == right.flat_hash::<M>(),
            forall|k: K| #[trigger] self.lookup::<M>(k, d) == entries_lookup(self.flat_entries(), k),
            forall|k: K| #[trigger] right.lookup::<M>(k, d) == entries_lookup(right.flat_entries(), k),
            match new {
                Some(n) => {
                    &&& n is S || n is L
                    &&& n.flat_entries() == os
                    &&& n matches MNode::L(l) ==> l.sizes_ok()
                },
                None => os.len() == 0,
            },
            entries_keys(os).no_duplicates(),
            forall|k: K| #[trigger] entries_lookup(os, k) is Some ==> done.contains(k),
            forall|k: K| #[trigger]
                done.contains(k) ==> entries_lookup(self.flat_entries(), k) is Some || entries_lookup(
                    right.flat_entries(),
                    k,
                ) is Some,
            forall|k: K|
                !done.contains(k) ==> #[trigger] entries_lookup(self.flat_entries(), k) is None && entries_lookup(
                    right.flat_entries(),
                    k,
                ) is None,
            forall|k: K| #[trigger]
                done.contains(k) ==> joint_transformed_entry(
                    both_op,
                    left_op,
                    right_op,
                    k,
                    entries_lookup(self.flat_entries(), k),
                    entries_lookup(right.flat_entries(), k),
                    entries_lookup(os, k),
                ),
        ensures
            new matches Some(n) ==> n.wf::<M>(d),
            joint_transformed_node::<K, V, R, B, LF, RF, M>(both_op, left_op, right_op, self, right, new, d),
    {
        assert forall|k: K| #[trigger] lookup_in::<K, V, M>(new, k, d) == entries_lookup(os, k) by {
            if let Some(n) = new {
                n.lemma_flat_lookup::<M>(k, d);
            } else {
                assert(os.len() == 0);
            }
        }
        assert forall|k: K| joint_transformed_entry(
            both_op,
            left_op,
            right_op,
            k,
            #[trigger] self.lookup::<M>(k, d),
            right.lookup::<M>(k, d),
            lookup_in::<K, V, M>(new, k, d),
        ) by {
            if !done.contains(k) {
                assert(entries_lookup(self.flat_entries(), k) is None);
                assert(entries_lookup(os, k) is None);
            }
        }
        if let Some(MNode::L(l)) = new {
            l.lemma_len();
            self.lemma_flat::<M>(d, d);
            right.lemma_flat::<M>(d, d);
            assert forall|i: int| 0 <= i < os.len() implies #[trigger] M::hash_of(os[i].0) == self.flat_hash::<M>() by {
                assert(entries_keys(os)[i] == os[i].0);
                lemma_entries_lookup_some(os, os[i].0);
                assert(done.contains(os[i].0));
                if entries_lookup(self.flat_entries(), os[i].0) is Some {
                    assert(self.lookup::<M>(os[i].0, d) is Some);
                } else {
                    assert(right.lookup::<M>(os[i].0, d) is Some);
                }
            }
            assert(M::hash_of(os[0].0) == self.flat_hash::<M>());
        }
    }
}

/// Every key below `left` and every key below `right` at depth `d` lie on one
/// path: their hashes agree below `d`.
pub open spec fn paths_agree<K, V, W, M: HasherBv<u64, K>>(left: MNode<K, V>, right: MNode<K, W>, d: nat) -> bool {
    forall|k1: K, k2: K|
        #![trigger left.lookup::<M>(k1, d), right.lookup::<M>(k2, d)]
        left.lookup::<M>(k1, d) is Some && right.lookup::<M>(k2, d) is Some ==> agrees_below(
            M::hash_of(k1),
            M::hash_of(k2),
            d,
        )
}

/// The keys held below either node at depth `d`.
pub open spec fn keys_below<K, V, W, M: HasherBv<u64, K>>(left: MNode<K, V>, right: MNode<K, W>, d: nat) -> Set<K> {
    left.view_at::<M>(d).dom().union(right.view_at::<M>(d).dom())
}

impl<K, V> MNode<K, V> {
    /// The children of the node at depth `d`, by position: those of a `CNode`,
    /// or a single-entry or list node alone at the chunk of its hash.
    pub open spec fn children_at<M: HasherBv<u64, K>>(self, d: nat) -> Map<int, MNode<K, V>> {
        match self {
            MNode::C(c) => c.children(),
            _ => Map::empty().insert(hash_chunk(self.flat_hash::<M>(), d), self),
        }
    }

    /// A well-formed node is looked up through its children, each of which is
    /// well formed one level down and holds the keys of its chunk.
    pub proof fn lemma_children_at<M: HasherBv<u64, K>>(self, d: nat)
        requires
            self.wf::<M>(d),
            d <= max_depth(),
        ensures
            forall|k: K| #[trigger] self.lookup::<M>(k, d) == child_lookup::<K, V, M>(self.children_at::<M>(d), k, d),
            forall|p: int| #[trigger]
                self.children_at::<M>(d).contains_key(p) ==> {
                    &&& 0 <= p < 32
                    &&& self.children_at::<M>(d)[p].wf::<M>(d + 1)
                    &&& forall|k: K| #[trigger]
                        self.children_at::<M>(d)[p].lookup::<M>(k, d + 1) is Some ==> hash_chunk(M::hash_of(k), d) == p
                },
    {
        match self {
            MNode::C(c) => {
                assert forall|p: int| #[trigger] self.children_at::<M>(d).contains_key(p) implies {
                    &&& 0 <= p < 32
                    &&& self.children_at::<M>(d)[p].wf::<M>(d + 1)
                    &&& forall|k: K| #[trigger]
                        self.children_at::<M>(d)[p].lookup::<M>(k, d + 1) is Some ==> hash_chunk(M::hash_of(k), d) == p
                } by {
                    assert(c.nodes.entries().contains_key(p));
                    assert(c.children().contains_key(p));
                    self.lemma_child::<M>(d, p);
                }
            },
            _ => {
                self.lemma_flat::<M>(d, d + 1);
                let p = hash_chunk(self.flat_hash::<M>(), d);
                lemma_hash_chunk_range(self.flat_hash::<M>(), d);
                assert forall|k: K| #[trigger] self.lookup::<M>(k, d) == child_lookup::<K, V, M>(
                    self.children_at::<M>(d),
                    k,
                    d,
                ) by {
                    if self.lookup::<M>(k, d) is Some {
                        assert(M::hash_of(k) == self.flat_hash::<M>());
                    }
                }
                assert forall|k: K| #[trigger] self.children_at::<M>(d)[p].lookup::<M>(k, d + 1) is Some implies hash_chunk(
                    M::hash_of(k),
                    d,
                ) == p by {
                    assert(self.children_at::<M>(d)[p] == self);
                    assert(self.lookup::<M>(k, d) is Some);
                }
            },
        }
    }

    /// A `CNode` whose only child is a single-entry or list node holds what the
    /// child holds, and the child is well formed in its place.
    pub proof fn lemma_sole_child<M: HasherBv<u64, K>>(newc: Map<int, MNode<K, V>>, q: int, d: nat)
        requires
            newc.contains_key(q),
            forall|q2: int| #[trigger] newc.contains_key(q2) ==> q2 == q,
            newc[q] is S || newc[q] is L,
            newc[q].wf::<M>(d + 1),
            forall|k: K| #[trigger] newc[q].lookup::<M>(k, d + 1) is Some ==> hash_chunk(M::hash_of(k), d) == q,
        ensures
            newc[q].wf::<M>(d),
            forall|k: K| #[trigger] lookup_in::<K, V, M>(Some(newc[q]), k, d) == child_lookup::<K, V, M>(newc, k, d),
    {
        let n = newc[q];
        n.lemma_flat::<M>(d + 1, d);
        assert forall|k: K| #[trigger] lookup_in::<K, V, M>(Some(n), k, d) == child_lookup::<K, V, M>(newc, k, d) by {
            assert(n.lookup::<M>(k, d) == n.lookup::<M>(k, d + 1));
        }
    }
}

impl<K: Key, V> MNode<K, V> {
    /// The key of the first entry of a single-entry or list node, or `None` for a `CNode`.
    fn flat_key<M: HasherBv<u64, K>>(&self) -> (r: Option<&K>)
        ensures
            match r {
                Some(k) => (self is S || self is L) && M::hash_of(*k) == self.flat_hash::<M>(),
                None => self is C,
            },
    {
        match self {
            MNode::S(s) => Some(s.key()),
            MNode::L(l) => Some(l.key()),
            MNode::C(_) => None,
        }
    }
}

impl<K: Key, V> MNode<K, V> {
    /// Run the joint transformation on the entries below `self` and `right`
    /// at `depth`, with `both_op` on the keys of both sides and each side's own
    /// transformation on the keys of that side only.
    pub fn transform_with_transformed<
        M: HasherBv<u64, K>,
        R: Clone + Default,
        RO: Fn(&R, &R) -> R,
        B: Fn(&K, &V, &K, &V) -> MapJointTransformResult<V, R>,
        LF: Fn(&K, &V) -> MapTransformResult<V, R>,
        RF: Fn(&K, &V) -> MapTransformResult<V, R>,
    >(
        &self,
        right: &MNode<K, V>,
        reduce_op: &RO,
        both_op: &MapJointTransform<R, B>,
        left_op: &MapTransform<R, LF>,
        right_op: &MapTransform<R, RF>,
        depth: usize,
    ) -> (res: JointTransformResult<K, V, R>)
        requires
            self.wf::<M>(depth as nat),
            right.wf::<M>(depth as nat),
            depth <= 13,
            paths_agree::<K, V, V, M>(*self, *right, depth as nat),
            keys_below::<K, V, V, M>(*self, *right, depth as nat).len() <= usize::MAX,
            joint_accepts_below::<K, V, R, B, LF, RF, M>(*both_op, *left_op, *right_op, *self, *right, depth as nat),
            reduces_all(*reduce_op),
        ensures
            res.node_after(*self, *right) matches Some(n) ==> n.wf::<M>(depth as nat),
            joint_transformed_node::<K, V, R, B, LF, RF, M>(
                *both_op,
                *left_op,
                *right_op,
                *self,
                *right,
                res.node_after(*self, *right),
                depth as nat,
            ),
            res is UnchangedLR ==> joint_transformed_node::<K, V, R, B, LF, RF, M>(
                *both_op,
                *left_op,
                *right_op,
                *self,
                *right,
                Some(*right),
                depth as nat,
            ),
            joint_reduced_at(
                *reduce_op,
                *both_op,
                *left_op,
                *right_op,
                node_lookup::<K, V, M>(*self, depth as nat),
                node_lookup::<K, V, M>(*right, depth as nat),
                res.reduced(),
            ),
        decreases 13 - depth, 1nat,
    {
        let same_hash = match self.flat_key::<M>() {
            Some(a) => match right.flat_key::<M>() {
                Some(b) => M::hash(a) == M::hash(b),
                None => false,
            },
            None => false,
        };
        if same_hash {
            self.joint_flat::<M, R, RO, B, LF, RF>(right, reduce_op, both_op, left_op, right_op, depth)
        } else {
            proof {
                if depth > max_depth() && !(self is C) && !(right is C) {
                    self.lemma_flat::<M>(depth as nat, depth as nat);
                    right.lemma_flat::<M>(depth as nat, depth as nat);
                    let k1 = self.flat_entries()[0].0;
                    let k2 = right.flat_entries()[0].0;
                    self.lemma_flat_lookup::<M>(k1, depth as nat);
                    right.lemma_flat_lookup::<M>(k2, depth as nat);
                    lemma_entries_lookup_some(self.flat_entries(), k1);
                    lemma_entries_lookup_some(right.flat_entries(), k2);
                    assert(entries_keys(self.flat_entries())[0] == k1);
                    assert(entries_keys(right.flat_entries())[0] == k2);
                    assert(self.lookup::<M>(k1, depth as nat) is Some);
                    assert(right.lookup::<M>(k2, depth as nat) is Some);
                    lemma_agree_all(M::hash_of(k1), M::hash_of(k2), depth as nat);
                }
            }
            self.joint_children::<M, R, RO, B, LF, RF>(right, reduce_op, both_op, left_op, right_op, depth)
        }
    }
}

/// The keys of either of two nodes at depth `d` whose hash picks a child
/// before position `p`.
pub open spec fn joint_keys_before<K, V, W, M: HasherBv<u64, K>>(l: MNode<K, V>, r: MNode<K, W>, d: nat, p: int) -> Set<K> {
    Set::new(|k: K| (l.lookup::<M>(k, d) is Some || r.lookup::<M>(k, d) is Some) && hash_chunk(M::hash_of(k), d) < p)
}

/// The lookup that finds nothing.
pub open spec fn no_lookup<K, V>() -> spec_fn(K) -> Option<V> {
    |k: K| None::<V>
}

/// A reduction of the joint transformation's values for the keys before a
/// position, combined with one for the keys at the position, is one for the
/// keys up to it: the lookups `cl` and `cr` at the position agree with the
/// lookups `pl` and `pr` on the keys `at_p` that lie there.
pub proof fn lemma_joint_reduced_step<K, V, R: Clone + Default, RO: Fn(&R, &R) -> R, B, LF, RF>(
    reduce_op: RO,
    both_op: MapJointTransform<R, B>,
    left_op: MapTransform<R, LF>,
    right_op: MapTransform<R, RF>,
    pl: spec_fn(K) -> Option<V>,
    pr: spec_fn(K) -> Option<V>,
    cl: spec_fn(K) -> Option<V>,
    cr: spec_fn(K) -> Option<V>,
    at_p: Set<K>,
    before: Set<K>,
    t: Reduction<K, R>,
    child_r: R,
    v: R,
) -> (t2: Reduction<K, R>) where
    B: Fn(&K, &V, &K, &V) -> MapJointTransformResult<V, R>,
    LF: Fn(&K, &V) -> MapTransformResult<V, R>,
    RF: Fn(&K, &V) -> MapTransformResult<V, R>,

    requires
        reduction_fits(
            t,
            reduce_op,
            before,
            joint_entries_ok(both_op, left_op, right_op, pl, pr),
            joint_others_ok(both_op, left_op, right_op),
        ),
        forall|k: K| #[trigger] at_p.contains(k) ==> pl(k) == cl(k) && pr(k) == cr(k),
        forall|k: K| #![trigger cl(k)] #![trigger cr(k)] (cl(k) is Some || cr(k) is Some) ==> at_p.contains(k),
        before.disjoint(at_p),
        joint_reduced_at(reduce_op, both_op, left_op, right_op, cl, cr, child_r),
        reduce_op.ensures((&t.value(), &child_r), v),
    ensures
        reduction_fits(
            t2,
            reduce_op,
            before.union(lookup_keys(cl).union(lookup_keys(cr))),
            joint_entries_ok(both_op, left_op, right_op, pl, pr),
            joint_others_ok(both_op, left_op, right_op),
        ),
        t2.value() == v,
{
    let ck = lookup_keys(cl).union(lookup_keys(cr));
    let tc = choose|tc: Reduction<K, R>|
        #![trigger tc.combines(reduce_op)]
        reduction_fits(
            tc,
            reduce_op,
            ck,
            joint_entries_ok(both_op, left_op, right_op, cl, cr),
            joint_others_ok(both_op, left_op, right_op),
        ) && tc.value() == child_r;
    assert forall|k: K, y: R|
        ck.contains(k) && #[trigger] joint_entries_ok(both_op, left_op, right_op, cl, cr)(k, y) implies #[trigger] joint_entries_ok(
        both_op,
        left_op,
        right_op,
        pl,
        pr,
    )(k, y) by {
        assert(at_p.contains(k));
    }
    lemma_fits_weaken(
        tc,
        reduce_op,
        ck,
        ck,
        joint_entries_ok(both_op, left_op, right_op, cl, cr),
        joint_entries_ok(both_op, left_op, right_op, pl, pr),
        joint_others_ok(both_op, left_op, right_op),
        joint_others_ok(both_op, left_op, right_op),
    );
    assert(before.disjoint(ck)) by {
        assert forall|k: K| ck.contains(k) implies !before.contains(k) by {
            assert(at_p.contains(k));
        }
    }
    lemma_fits_both(
        t,
        tc,
        v,
        reduce_op,
        before,
        ck,
        joint_entries_ok(both_op, left_op, right_op, pl, pr),
        joint_others_ok(both_op, left_op, right_op),
    );
    Reduction::Both(Box::new(t), Box::new(tc), v)
}

/// A reduction of a transformation's values for the entries of a node on one
/// side only is one of the joint transformation's values for that side.
pub proof fn lemma_joint_reduced_one_side<K, V, R: Clone + Default, RO: Fn(&R, &R) -> R, B, LF, RF, M: HasherBv<u64, K>>(
    reduce_op: RO,
    both_op: MapJointTransform<R, B>,
    left_op: MapTransform<R, LF>,
    right_op: MapTransform<R, RF>,
    n: MNode<K, V>,
    d: nat,
    r: R,
    is_left: bool,
) where
    B: Fn(&K, &V, &K, &V) -> MapJointTransformResult<V, R>,
    LF: Fn(&K, &V) -> MapTransformResult<V, R>,
    RF: Fn(&K, &V) -> MapTransformResult<V, R>,

    requires
        is_left ==> node_transform_reduced::<K, V, R, RO, LF, M>(reduce_op, left_op, n, d, r),
        !is_left ==> node_transform_reduced::<K, V, R, RO, RF, M>(reduce_op, right_op, n, d, r),
    ensures
        is_left ==> joint_reduced_at(reduce_op, both_op, left_op, right_op, node_lookup::<K, V, M>(n, d), no_lookup(), r),
        !is_left ==> joint_reduced_at(reduce_op, both_op, left_op, right_op, no_lookup(), node_lookup::<K, V, M>(n, d), r),
{
    let nl = node_lookup::<K, V, M>(n, d);
    let jo = joint_others_ok(both_op, left_op, right_op);
    if is_left {
        let je = joint_entries_ok(both_op, left_op, right_op, nl, no_lookup());
        let t = choose|t: Reduction<K, R>|
            #![trigger t.combines(reduce_op)]
            reduction_fits(
                t,
                reduce_op,
                node_keys::<K, V, M>(n, d),
                node_transform_entries_ok::<K, V, R, LF, M>(left_op, n, d),
                transform_others_ok(left_op),
            ) && t.value() == r;
        let keys = lookup_keys(nl).union(lookup_keys(no_lookup::<K, V>()));
        assert(node_keys::<K, V, M>(n, d) =~= keys);
        assert forall|k: K, y: R|
            node_keys::<K, V, M>(n, d).contains(k) && #[trigger] node_transform_entries_ok::<K, V, R, LF, M>(left_op, n, d)(
                k,
                y,
            ) implies #[trigger] je(k, y) by {
        }
        lemma_fits_weaken(
            t,
            reduce_op,
            node_keys::<K, V, M>(n, d),
            keys,
            node_transform_entries_ok::<K, V, R, LF, M>(left_op, n, d),
            je,
            transform_others_ok(left_op),
            jo,
        );
        assert(t.combines(reduce_op));
    } else {
        let je = joint_entries_ok(both_op, left_op, right_op, no_lookup(), nl);
        let t = choose|t: Reduction<K, R>|
            #![trigger t.combines(reduce_op)]
            reduction_fits(
                t,
                reduce_op,
                node_keys::<K, V, M>(n, d),
                node_transform_entries_ok::<K, V, R, RF, M>(right_op, n, d),
                transform_others_ok(right_op),
            ) && t.value() == r;
        let keys = lookup_keys(no_lookup::<K, V>()).union(lookup_keys(nl));
        assert(node_keys::<K, V, M>(n, d) =~= keys);
        assert forall|k: K, y: R|
            node_keys::<K, V, M>(n, d).contains(k) && #[trigger] node_transform_entries_ok::<K, V, R, RF, M>(right_op, n, d)(
                k,
                y,
            ) implies #[trigger] je(k, y) by {
        }
        lemma_fits_weaken(
            t,
            reduce_op,
            node_keys::<K, V, M>(n, d),
            keys,
            node_transform_entries_ok::<K, V, R, RF, M>(right_op, n, d),
            je,
            transform_others_ok(right_op),
            jo,
        );
        assert(t.combines(reduce_op));
    }
}

impl<K: Key, V> MNode<K, V> {
    /// The joint transformation at `depth` position by position: the children
    /// of both sides at a position are transformed together, a child of one side
    /// only by that side's transformation, and the children left are gathered.
    #[verifier::rlimit(30)]
    fn joint_children<
        M: HasherBv<u64, K>,
        R: Clone + Default,
        RO: Fn(&R, &R) -> R,
        B: Fn(&K, &V, &K, &V) -> MapJointTransformResult<V, R>,
        LF: Fn(&K, &V) -> MapTransformResult<V, R>,
        RF: Fn(&K, &V) -> MapTransformResult<V, R>,
    >(
        &self,
        right: &MNode<K, V>,
        reduce_op: &RO,
        both_op: &MapJointTransform<R, B>,
        left_op: &MapTransform<R, LF>,
        right_op: &MapTransform<R, RF>,
        depth: usize,
    ) -> (res: JointTransformResult<K, V, R>)
        requires
            self.wf::<M>(depth as nat),
            right.wf::<M>(depth as nat),
            depth as nat <= max_depth(),
            paths_agree::<K, V, V, M>(*self, *right, depth as nat),
            keys_below::<K, V, V, M>(*self, *right, depth as nat).len() <= usize::MAX,
            joint_accepts_below::<K, V, R, B, LF, RF, M>(*both_op, *left_op, *right_op, *self, *right, depth as nat),
            reduces_all(*reduce_op),
        ensures
            res.node_after(*self, *right) matches Some(n) ==> n.wf::<M>(depth as nat),
            joint_transformed_node::<K, V, R, B, LF, RF, M>(
                *both_op,
                *left_op,
                *right_op,
                *self,
                *right,
                res.node_after(*self, *right),
                depth as nat,
            ),
            res is UnchangedLR ==> joint_transformed_node::<K, V, R, B, LF, RF, M>(
                *both_op,
                *left_op,
                *right_op,
                *self,
                *right,
                Some(*right),
                depth as nat,
            ),
            joint_reduced_at(
                *reduce_op,
                *both_op,
                *left_op,
                *right_op,
                node_lookup::<K, V, M>(*self, depth as nat),
                node_lookup::<K, V, M>(*right, depth as nat),
                res.reduced(),
            ),
        decreases 13 - depth, 0nat,
    {
        let ghost d = depth as nat;
        let ghost lc = self.children_at::<M>(d);
        let ghost rc = right.children_at::<M>(d);
        let ghost all = keys_below::<K, V, V, M>(*self, *right, d);
        proof {
            self.lemma_children_at::<M>(d);
            right.lemma_children_at::<M>(d);
            self.lemma_size_view::<M>(d);
            right.lemma_size_view::<M>(d);
        }
        let lchunk: usize = match self.flat_key::<M>() {
            Some(a) => {
                let h = M::hash(a);
                proof {
                    crate::flag::lemma_hash_chunk_range(h, d);
                }
                ((h >> ((5 * depth) as u64)) & 31u64) as usize
            },
            None => 32,
        };
        let rchunk: usize = match right.flat_key::<M>() {
            Some(b) => {
                let h = M::hash(b);
                proof {
                    crate::flag::lemma_hash_chunk_range(h, d);
                }
                ((h >> ((5 * depth) as u64)) & 31u64) as usize
            },
            None => 32,
        };
        let mut size: usize = 0;
        let mut bits_t: u32 = u32::zero_word();
        let mut values_t: Vec<MNode<K, V>> = Vec::new();
        let mut reduced: R = R::default();
        let mut unchanged_l = true;
        let mut unchanged_r = true;
        let ghost mut newc: Map<int, MNode<K, V>> = Map::empty();
        let ghost mut keys: Set<K> = Set::empty();
        let ghost pl = node_lookup::<K, V, M>(*self, d);
        let ghost pr = node_lookup::<K, V, M>(*right, d);
        let ghost jok = joint_entries_ok(*both_op, *left_op, *right_op, pl, pr);
        let ghost jot = joint_others_ok(*both_op, *left_op, *right_op);
        let ghost mut red_t: Reduction<K, R> = Reduction::Other(reduced);
        proof {
            lemma_count_zero(bits_t.bit_seq());
            lemma_fits_other(reduced, *reduce_op, jok, jot);
            assert(joint_keys_before::<K, V, V, M>(*self, *right, d, 0) =~= Set::<K>::empty()) by {
                assert forall|k: K| !joint_keys_before::<K, V, V, M>(*self, *right, d, 0).contains(k) by {
                    lemma_hash_chunk_range(M::hash_of(k), d);
                }
            }
        }
        let mut index: usize = 0;
        while index < 32
            invariant
                index <= 32,
                d == depth as nat,
                d <= max_depth(),
                lc == self.children_at::<M>(d),
                rc == right.children_at::<M>(d),
                all == keys_below::<K, V, V, M>(*self, *right, d),
                all.finite(),
                all.len() <= usize::MAX,
                self.wf::<M>(d),
                right.wf::<M>(d),
                paths_agree::<K, V, V, M>(*self, *right, d),
                joint_accepts_below::<K, V, R, B, LF, RF, M>(*both_op, *left_op, *right_op, *self, *right, d),
                reduces_all(*reduce_op),
                !(self is C) ==> lchunk == hash_chunk(self.flat_hash::<M>(), d),
                !(right is C) ==> rchunk == hash_chunk(right.flat_hash::<M>(), d),
                forall|k: K| #[trigger] self.lookup::<M>(k, d) == child_lookup::<K, V, M>(lc, k, d),
                forall|k: K| #[trigger] right.lookup::<M>(k, d) == child_lookup::<K, V, M>(rc, k, d),
                forall|p: int| #[trigger]
                    lc.contains_key(p) ==> {
                        &&& 0 <= p < 32
                        &&& lc[p].wf::<M>(d + 1)
                        &&& forall|k: K| #[trigger] lc[p].lookup::<M>(k, d + 1) is Some ==> hash_chunk(M::hash_of(k), d) == p
                    },
                forall|p: int| #[trigger]
                    rc.contains_key(p) ==> {
                        &&& 0 <= p < 32
                        &&& rc[p].wf::<M>(d + 1)
                        &&& forall|k: K| #[trigger] rc[p].lookup::<M>(k, d + 1) is Some ==> hash_chunk(M::hash_of(k), d) == p
                    },
                bits_t.bit_seq().len() == 32,
                forall|p: int| 0 <= p < 32 ==> #[trigger] bits_t.bit_seq()[p] == newc.contains_key(p),
                forall|p: int|
                    #[trigger] newc.contains_key(p) ==> {
                        &&& 0 <= p < index
                        &&& newc[p].wf::<M>(d + 1)
                        &&& values_t@[rank(bits_t.bit_seq(), p) as int] == newc[p]
                        &&& forall|k: K| #[trigger]
                            newc[p].lookup::<M>(k, d + 1) is Some ==> hash_chunk(M::hash_of(k), d) == p
                    },
                values_t@.len() == count_set(bits_t.bit_seq()),
                forall|k: K|
                    #![trigger self.lookup::<M>(k, d)]
                    #![trigger child_lookup::<K, V, M>(newc, k, d)]
                    hash_chunk(M::hash_of(k), d) < index ==> joint_transformed_entry(
                        *both_op,
                        *left_op,
                        *right_op,
                        k,
                        self.lookup::<M>(k, d),
                        right.lookup::<M>(k, d),
                        child_lookup::<K, V, M>(newc, k, d),
                    ),
                unchanged_l ==> forall|k: K|
                    #![trigger self.lookup::<M>(k, d)]
                    hash_chunk(M::hash_of(k), d) < index ==> joint_transformed_entry(
                        *both_op,
                        *left_op,
                        *right_op,
                        k,
                        self.lookup::<M>(k, d),
                        right.lookup::<M>(k, d),
                        self.lookup::<M>(k, d),
                    ),
                unchanged_r ==> forall|k: K|
                    #![trigger right.lookup::<M>(k, d)]
                    hash_chunk(M::hash_of(k), d) < index ==> joint_transformed_entry(
                        *both_op,
                        *left_op,
                        *right_op,
                        k,
                        self.lookup::<M>(k, d),
                        right.lookup::<M>(k, d),
                        right.lookup::<M>(k, d),
                    ),
                keys.finite(),
                size == keys.len(),
                forall|k: K| #[trigger] keys.contains(k) <==> child_lookup::<K, V, M>(newc, k, d) is Some,
                keys.subset_of(all),
                pl == node_lookup::<K, V, M>(*self, d),
                pr == node_lookup::<K, V, M>(*right, d),
                jok == joint_entries_ok(*both_op, *left_op, *right_op, pl, pr),
                jot == joint_others_ok(*both_op, *left_op, *right_op),
                red_t.value() == reduced,
                reduction_fits(red_t, *reduce_op, joint_keys_before::<K, V, V, M>(*self, *right, d, index as int), jok, jot),
            decreases 32 - index,
        {
            let ghost pre_newc = newc;
            let ghost pre_keys = keys;
            let ghost pre_bits = bits_t.bit_seq();
            let ghost p = index as int;
            let lchild: Option<&MNode<K, V>> = match self {
                MNode::C(c) => match c.nodes.at_index(index) {
                    Ok(n) => Some(n),
                    Err(_) => None,
                },
                _ => if index == lchunk {
                    Some(self)
                } else {
                    None
                },
            };
            let rchild: Option<&MNode<K, V>> = match right {
                MNode::C(c) => match c.nodes.at_index(index) {
                    Ok(n) => Some(n),
                    Err(_) => None,
                },
                _ => if index == rchunk {
                    Some(right)
                } else {
                    None
                },
            };
            proof {
                assert(lchild is Some <==> lc.contains_key(p));
                assert(lchild matches Some(n) ==> *n == lc[p]);
                assert(rchild is Some <==> rc.contains_key(p));
                assert(rchild matches Some(n) ==> *n == rc[p]);
                assert forall|k: K| hash_chunk(M::hash_of(k), d) == p implies #[trigger] self.lookup::<M>(k, d)
                    == lookup_in::<K, V, M>(lc.get(p), k, d + 1) && right.lookup::<M>(k, d) == lookup_in::<K, V, M>(
                    rc.get(p),
                    k,
                    d + 1,
                ) by {
                }
            }
            let ghost clk = |k: K| lookup_in::<K, V, M>(lc.get(p), k, d + 1);
            let ghost crk = |k: K| lookup_in::<K, V, M>(rc.get(p), k, d + 1);
            let jr: Option<JointTransformResult<K, V, R>> = match lchild {
                Some(ln) => match rchild {
                    Some(rn) => {
                        proof {
                            self.lemma_joint_children_step::<M, R, B, LF, RF>(*right, *both_op, *left_op, *right_op, d, p);
                        }
                        let jt = ln.transform_with_transformed::<M, R, RO, B, LF, RF>(rn, reduce_op, both_op, left_op, right_op, depth + 1);
                        proof {
                            assert(node_lookup::<K, V, M>(*ln, d + 1) =~= clk);
                            assert(node_lookup::<K, V, M>(*rn, d + 1) =~= crk);
                        }
                        Some(jt)
                    },
                    None => {
                        proof {
                            assert forall|k: K| #[trigger] ln.lookup::<M>(k, d + 1) is Some implies left_op.accepts(
                                k,
                                ln.lookup::<M>(k, d + 1)->Some_0,
                            ) by {
                                assert(self.lookup::<M>(k, d) == ln.lookup::<M>(k, d + 1));
                                assert(right.lookup::<M>(k, d) is None);
                            }
                        }
                        let t = ln.transform::<M, R, RO, LF>(reduce_op, left_op, depth + 1);
                        proof {
                            Self::lemma_one_side_joint::<M, R, B, LF, RF>(*both_op, *left_op, *right_op, *ln, t.node_after(*ln), d + 1, true);
                            lemma_joint_reduced_one_side::<K, V, R, RO, B, LF, RF, M>(
                                *reduce_op,
                                *both_op,
                                *left_op,
                                *right_op,
                                *ln,
                                d + 1,
                                t.reduced(),
                                true,
                            );
                            assert(node_lookup::<K, V, M>(*ln, d + 1) =~= clk);
                            assert(no_lookup::<K, V>() =~= crk);
                        }
                        Some(match t {
                            TransformResult::Unchanged(r) => JointTransformResult::UnchangedL(r),
                            TransformResult::C(c, r) => JointTransformResult::C(c, r),
                            TransformResult::L(l, r) => JointTransformResult::L(l, r),
                            TransformResult::S(s, r) => JointTransformResult::S(s, r),
                            TransformResult::Removed(r) => JointTransformResult::Removed(r),
                        })
                    },
                },
                None => match rchild {
                    Some(rn) => {
                        proof {
                            assert forall|k: K| #[trigger] rn.lookup::<M>(k, d + 1) is Some implies right_op.accepts(
                                k,
                                rn.lookup::<M>(k, d + 1)->Some_0,
                            ) by {
                                assert(right.lookup::<M>(k, d) == rn.lookup::<M>(k, d + 1));
                                assert(self.lookup::<M>(k, d) is None);
                            }
                        }
                        let t = rn.transform::<M, R, RO, RF>(reduce_op, right_op, depth + 1);
                        proof {
                            Self::lemma_one_side_joint::<M, R, B, LF, RF>(*both_op, *left_op, *right_op, *rn, t.node_after(*rn), d + 1, false);
                            lemma_joint_reduced_one_side::<K, V, R, RO, B, LF, RF, M>(
                                *reduce_op,
                                *both_op,
                                *left_op,
                                *right_op,
                                *rn,
                                d + 1,
                                t.reduced(),
                                false,
                            );
                            assert(node_lookup::<K, V, M>(*rn, d + 1) =~= crk);
                            assert(no_lookup::<K, V>() =~= clk);
                        }
                        Some(match t {
                            TransformResult::Unchanged(r) => JointTransformResult::UnchangedR(r),
                            TransformResult::C(c, r) => JointTransformResult::C(c, r),
                            TransformResult::L(l, r) => JointTransformResult::L(l, r),
                            TransformResult::S(s, r) => JointTransformResult::S(s, r),
                            TransformResult::Removed(r) => JointTransformResult::Removed(r),
                        })
                    },
                    None => None,
                },
            };
            let ghost lnode = match lc.get(p) {
                Some(n) => n,
                None => *self,
            };
            let ghost rnode = match rc.get(p) {
                Some(n) => n,
                None => *right,
            };
            let ghost jnew = joint_node_after(jr, lnode, rnode);
            proof {
                assert(jr matches Some(j) ==> (j is UnchangedLR || j is UnchangedL) ==> lc.contains_key(p));
                assert(jr matches Some(j) ==> (j is UnchangedLR || j is UnchangedR) ==> rc.contains_key(p));
                assert(jr is None ==> !lc.contains_key(p) && !rc.contains_key(p));
                assert(jnew matches Some(n) ==> n.wf::<M>(d + 1));
                assert forall|k: K| #![trigger lookup_in::<K, V, M>(jnew, k, d + 1)]
                    joint_transformed_entry(
                        *both_op,
                        *left_op,
                        *right_op,
                        k,
                        lookup_in::<K, V, M>(lc.get(p), k, d + 1),
                        lookup_in::<K, V, M>(rc.get(p), k, d + 1),
                        lookup_in::<K, V, M>(jnew, k, d + 1),
                    ) by {
                    if jr is Some {
                        assert(lookup_in::<K, V, M>(lc.get(p), k, d + 1) == lnode.lookup::<M>(k, d + 1) || !lc.contains_key(p));
                    }
                }
            }
            let (new_child, red, keeps_l, keeps_r): (Option<MNode<K, V>>, Option<R>, bool, bool) = match jr {
                None => (None, None, true, true),
                Some(JointTransformResult::UnchangedLR(r)) => (Some(lchild.unwrap().clone()), Some(r), true, true),
                Some(JointTransformResult::UnchangedL(r)) => (Some(lchild.unwrap().clone()), Some(r), true, false),
                Some(JointTransformResult::UnchangedR(r)) => (Some(rchild.unwrap().clone()), Some(r), false, true),
                Some(JointTransformResult::C(c, r)) => (Some(MNode::C(c)), Some(r), false, false),
                Some(JointTransformResult::L(l, r)) => (Some(MNode::L(l)), Some(r), false, false),
                Some(JointTransformResult::S(s, r)) => (Some(MNode::S(s)), Some(r), false, false),
                Some(JointTransformResult::Removed(r)) => (None, Some(r), false, false),
            };
            proof {
                assert(new_child == jnew);
            }
            if !keeps_l {
                unchanged_l = false;
            }
            if !keeps_r {
                unchanged_r = false;
            }
            let ghost at_p = Set::new(|k: K| hash_chunk(M::hash_of(k), d) == p);
            proof {
                assert forall|k: K| #![trigger clk(k)] #![trigger crk(k)] (clk(k) is Some || crk(k) is Some) implies at_p.contains(k) by {
                    if clk(k) is Some {
                        assert(lc[p].lookup::<M>(k, d + 1) is Some);
                    } else {
                        assert(rc[p].lookup::<M>(k, d + 1) is Some);
                    }
                }
                assert(joint_keys_before::<K, V, V, M>(*self, *right, d, p).disjoint(at_p));
                assert(joint_keys_before::<K, V, V, M>(*self, *right, d, p).union(lookup_keys(clk).union(lookup_keys(crk)))
                    =~= joint_keys_before::<K, V, V, M>(*self, *right, d, p + 1)) by {
                    assert forall|k: K| #[trigger] joint_keys_before::<K, V, V, M>(*self, *right, d, p + 1).contains(k)
                        implies joint_keys_before::<K, V, V, M>(*self, *right, d, p).union(lookup_keys(clk).union(lookup_keys(crk))).contains(k) by {
                        if hash_chunk(M::hash_of(k), d) == p {
                            assert(self.lookup::<M>(k, d) == clk(k));
                            assert(right.lookup::<M>(k, d) == crk(k));
                        }
                    }
                }
            }
            match red {
                Some(r) => {
                    reduced = reduce_op(&reduced, &r);
                    proof {
                        assert(jr matches Some(j) && j.reduced() == r);
                        red_t = lemma_joint_reduced_step(
                            *reduce_op,
                            *both_op,
                            *left_op,
                            *right_op,
                            pl,
                            pr,
                            clk,
                            crk,
                            at_p,
                            joint_keys_before::<K, V, V, M>(*self, *right, d, p),
                            red_t,
                            r,
                            reduced,
                        );
                    }
                },
                None => {
                    proof {
                        assert(lookup_keys(clk).union(lookup_keys(crk)) =~= Set::<K>::empty());
                        assert(joint_keys_before::<K, V, V, M>(*self, *right, d, p + 1) =~= joint_keys_before::<K, V, V, M>(
                            *self,
                            *right,
                            d,
                            p,
                        ));
                    }
                },
            }
            match new_child {
                Some(n) => {
                    let ghost nd = n.view_at::<M>(d + 1).dom();
                    proof {
                        n.lemma_size_view::<M>(d + 1);
                        assert forall|k: K| #[trigger] n.lookup::<M>(k, d + 1) is Some implies hash_chunk(
                            M::hash_of(k),
                            d,
                        ) == p && all.contains(k) by {
                            assert(lookup_in::<K, V, M>(jnew, k, d + 1) is Some);
                            if lookup_in::<K, V, M>(lc.get(p), k, d + 1) is Some {
                                assert(lc[p].lookup::<M>(k, d + 1) is Some);
                                assert(self.lookup::<M>(k, d) is Some);
                                assert(self.view_at::<M>(d).dom().contains(k));
                            } else {
                                assert(rc[p].lookup::<M>(k, d + 1) is Some);
                                assert(right.lookup::<M>(k, d) is Some);
                                assert(right.view_at::<M>(d).dom().contains(k));
                            }
                        }
                        assert(pre_keys.disjoint(nd)) by {
                            assert forall|k: K| pre_keys.contains(k) implies !nd.contains(k) by {
                                assert(child_lookup::<K, V, M>(pre_newc, k, d) is Some);
                            }
                        }
                        vstd::set_lib::lemma_set_disjoint_lens(pre_keys, nd);
                        assert(pre_keys.union(nd).subset_of(all));
                        vstd::set_lib::lemma_len_subset(pre_keys.union(nd), all);
                    }
                    size = size + n.size();
                    let bit = u32::nth_bit(index).unwrap();
                    proof {
                        lemma_only_bit(32, p);
                        assert(!pre_bits[p]);
                    }
                    bits_t = bits_t.bit_insert(bit).unwrap();
                    values_t.push(n);
                    proof {
                        newc = pre_newc.insert(p, n);
                        keys = pre_keys.union(nd);
                        lemma_count_set_bit(pre_bits, p, p);
                        lemma_count_split(pre_bits, p);
                        lemma_count_zero(pre_bits.skip(p));
                        assert(bits_t.bit_seq() == pre_bits.update(p, true));
                        assert forall|q: int| #[trigger] newc.contains_key(q) implies values_t@[rank(
                            bits_t.bit_seq(),
                            q,
                        ) as int] == newc[q] by {
                            lemma_count_set_bit(pre_bits, p, q);
                            if q != p {
                                lemma_rank_lt_count(pre_bits, q);
                            }
                        }
                        assert forall|k: K| #[trigger] keys.contains(k) <==> child_lookup::<K, V, M>(
                            newc,
                            k,
                            d,
                        ) is Some by {
                            if hash_chunk(M::hash_of(k), d) == p {
                                if pre_keys.contains(k) {
                                    assert(child_lookup::<K, V, M>(pre_newc, k, d) is Some);
                                }
                            } else {
                                assert(child_lookup::<K, V, M>(newc, k, d) == child_lookup::<K, V, M>(pre_newc, k, d));
                            }
                        }
                    }
                },
                None => {},
            }
            proof {
                assert forall|k: K| hash_chunk(M::hash_of(k), d) < index + 1 implies joint_transformed_entry(
                    *both_op,
                    *left_op,
                    *right_op,
                    k,
                    #[trigger] self.lookup::<M>(k, d),
                    right.lookup::<M>(k, d),
                    child_lookup::<K, V, M>(newc, k, d),
                ) by {
                    if hash_chunk(M::hash_of(k), d) == p {
                        assert(lookup_in::<K, V, M>(jnew, k, d + 1) == child_lookup::<K, V, M>(newc, k, d));
                    } else {
                        assert(child_lookup::<K, V, M>(newc, k, d) == child_lookup::<K, V, M>(pre_newc, k, d));
                    }
                }
                if unchanged_l {
                    assert forall|k: K| hash_chunk(M::hash_of(k), d) < index + 1 implies joint_transformed_entry(
                        *both_op,
                        *left_op,
                        *right_op,
                        k,
                        #[trigger] self.lookup::<M>(k, d),
                        right.lookup::<M>(k, d),
                        self.lookup::<M>(k, d),
                    ) by {
                        if hash_chunk(M::hash_of(k), d) == p {
                            if jr is Some {
                                assert(jnew == Some(lnode));
                                assert(lookup_in::<K, V, M>(jnew, k, d + 1) == self.lookup::<M>(k, d));
                            }
                        }
                    }
                }
                if unchanged_r {
                    assert forall|k: K| hash_chunk(M::hash_of(k), d) < index + 1 implies joint_transformed_entry(
                        *both_op,
                        *left_op,
                        *right_op,
                        k,
                        self.lookup::<M>(k, d),
                        #[trigger] right.lookup::<M>(k, d),
                        right.lookup::<M>(k, d),
                    ) by {
                        if hash_chunk(M::hash_of(k), d) == p {
                            if let Some(j) = jr {
                                if j is UnchangedR {
                                    assert(jnew == Some(rnode));
                                    assert(lookup_in::<K, V, M>(jnew, k, d + 1) == right.lookup::<M>(k, d));
                                } else {
                                    assert(lookup_in::<K, V, M>(Some(rnode), k, d + 1) == right.lookup::<M>(k, d));
                                }
                            }
                        }
                    }
                }
            }
            index = index + 1;
        }
        proof {
            assert forall|k: K| #[trigger] self.lookup::<M>(k, d) == self.lookup::<M>(k, d) implies hash_chunk(
                M::hash_of(k),
                d,
            ) < 32 by {
                lemma_hash_chunk_range(M::hash_of(k), d);
            }
            assert forall|k: K| #[trigger] right.lookup::<M>(k, d) == right.lookup::<M>(k, d) implies hash_chunk(
                M::hash_of(k),
                d,
            ) < 32 by {
                lemma_hash_chunk_range(M::hash_of(k), d);
            }
            assert(joint_keys_before::<K, V, V, M>(*self, *right, d, 32) =~= lookup_keys(pl).union(lookup_keys(pr))) by {
                assert forall|k: K| #[trigger] lookup_keys(pl).union(lookup_keys(pr)).contains(k) implies joint_keys_before::<
                    K,
                    V,
                    V,
                    M,
                >(*self, *right, d, 32).contains(k) by {
                    lemma_hash_chunk_range(M::hash_of(k), d);
                }
            }
            assert(red_t.combines(*reduce_op));
        }
        if unchanged_l && unchanged_r {
            return JointTransformResult::UnchangedLR(reduced);
        }
        if unchanged_l {
            return JointTransformResult::UnchangedL(reduced);
        }
        if unchanged_r {
            return JointTransformResult::UnchangedR(reduced);
        }
        if values_t.len() == 0 {
            proof {
                lemma_count_zero(bits_t.bit_seq());
                assert forall|k: K| #[trigger] child_lookup::<K, V, M>(newc, k, d) is None by {
                    lemma_hash_chunk_range(M::hash_of(k), d);
                    let q = hash_chunk(M::hash_of(k), d);
                    if newc.contains_key(q) {
                        assert(bits_t.bit_seq()[q]);
                    }
                }
            }
            return JointTransformResult::Removed(reduced);
        }
        if values_t.len() == 1 {
            let ghost q = crate::bitseq::lemma_rank_onto(bits_t.bit_seq(), 0);
            proof {
                assert(newc.contains_key(q));
                assert forall|q2: int| #[trigger] newc.contains_key(q2) implies q2 == q by {
                    if q2 != q {
                        crate::bitseq::lemma_rank_injective(bits_t.bit_seq(), q, q2);
                        lemma_rank_lt_count(bits_t.bit_seq(), q2);
                    }
                }
            }
            match &values_t[0] {
                MNode::C(_) => {},
                MNode::L(l) => {
                    proof {
                        assert(MNode::L(*l) == newc[q]);
                        MNode::lemma_sole_child::<M>(newc, q, d);
                    }
                    return JointTransformResult::L(l.clone(), reduced);
                },
                MNode::S(s) => {
                    proof {
                        assert(MNode::S(*s) == newc[q]);
                        MNode::lemma_sole_child::<M>(newc, q, d);
                    }
                    return JointTransformResult::S(s.clone(), reduced);
                },
            }
        }
        match new_bit_indexed_array(bits_t, values_t, size) {
            Ok(arr) => {
                let cn = CNode::new(arr);
                proof {
                    assert(cn.children() =~= newc);
                    let n = MNode::C(cn);
                    assert forall|k: K| #[trigger] n.lookup::<M>(k, d) == child_lookup::<K, V, M>(newc, k, d) by {
                    }
                    assert(n.view_at::<M>(d).dom() =~= keys);
                }
                JointTransformResult::C(cn, reduced)
            },
            Err(_) => {
                proof {
                    assert(false);
                }
                JointTransformResult::Removed(reduced)
            },
        }
    }
}

impl<K, V> MNode<K, V> {
    /// The children of two nodes at one position may be transformed together:
    /// they are well formed, lie on one path, hold fewer keys than their
    /// parents together, and the transformations may run on their entries.
    proof fn lemma_joint_children_step<
        M: HasherBv<u64, K>,
        R,
        B: Fn(&K, &V, &K, &V) -> MapJointTransformResult<V, R>,
        LF: Fn(&K, &V) -> MapTransformResult<V, R>,
        RF: Fn(&K, &V) -> MapTransformResult<V, R>,
    >(
        self,
        right: MNode<K, V>,
        both_op: MapJointTransform<R, B>,
        left_op: MapTransform<R, LF>,
        right_op: MapTransform<R, RF>,
        d: nat,
        p: int,
    )
        requires
            self.wf::<M>(d),
            right.wf::<M>(d),
            d <= max_depth(),
            paths_agree::<K, V, V, M>(self, right, d),
            keys_below::<K, V, V, M>(self, right, d).finite(),
            keys_below::<K, V, V, M>(self, right, d).len() <= usize::MAX,
            joint_accepts_below::<K, V, R, B, LF, RF, M>(both_op, left_op, right_op, self, right, d),
            self.children_at::<M>(d).contains_key(p),
            right.children_at::<M>(d).contains_key(p),
        ensures
            self.children_at::<M>(d)[p].wf::<M>(d + 1),
            right.children_at::<M>(d)[p].wf::<M>(d + 1),
            paths_agree::<K, V, V, M>(self.children_at::<M>(d)[p], right.children_at::<M>(d)[p], d + 1),
            keys_below::<K, V, V, M>(self.children_at::<M>(d)[p], right.children_at::<M>(d)[p], d + 1).len() <= usize::MAX,
            joint_accepts_below::<K, V, R, B, LF, RF, M>(
                both_op,
                left_op,
                right_op,
                self.children_at::<M>(d)[p],
                right.children_at::<M>(d)[p],
                d + 1,
            ),
    {
        let ln = self.children_at::<M>(d)[p];
        let rn = right.children_at::<M>(d)[p];
        self.lemma_children_at::<M>(d);
        right.lemma_children_at::<M>(d);
        ln.lemma_size_view::<M>(d + 1);
        rn.lemma_size_view::<M>(d + 1);
        assert forall|k1: K, k2: K|
            #![trigger ln.lookup::<M>(k1, d + 1), rn.lookup::<M>(k2, d + 1)]
            ln.lookup::<M>(k1, d + 1) is Some && rn.lookup::<M>(k2, d + 1) is Some implies agrees_below(
                M::hash_of(k1),
                M::hash_of(k2),
                d + 1,
            ) by {
            assert(self.lookup::<M>(k1, d) == child_lookup::<K, V, M>(self.children_at::<M>(d), k1, d));
            assert(right.lookup::<M>(k2, d) == child_lookup::<K, V, M>(right.children_at::<M>(d), k2, d));
            assert(agrees_below(M::hash_of(k1), M::hash_of(k2), d));
            assert forall|j: nat| j < d + 1 implies #[trigger] hash_chunk(M::hash_of(k1), j) == hash_chunk(
                M::hash_of(k2),
                j,
            ) by {
                if j < d {
                    assert(hash_chunk(M::hash_of(k1), j) == hash_chunk(M::hash_of(k2), j));
                }
            }
        }
        let cu = keys_below::<K, V, V, M>(ln, rn, d + 1);
        assert(cu.subset_of(keys_below::<K, V, V, M>(self, right, d))) by {
            assert forall|k: K| cu.contains(k) implies #[trigger] keys_below::<K, V, V, M>(self, right, d).contains(k) by {
                if ln.lookup::<M>(k, d + 1) is Some {
                    assert(self.lookup::<M>(k, d) == child_lookup::<K, V, M>(self.children_at::<M>(d), k, d));
                } else {
                    assert(right.lookup::<M>(k, d) == child_lookup::<K, V, M>(right.children_at::<M>(d), k, d));
                }
            }
        }
        vstd::set_lib::lemma_len_subset(cu, keys_below::<K, V, V, M>(self, right, d));
        assert forall|k: K|
            #![trigger ln.lookup::<M>(k, d + 1)]
            #![trigger rn.lookup::<M>(k, d + 1)]
            joint_accepts_entry(both_op, left_op, right_op, k, ln.lookup::<M>(k, d + 1), rn.lookup::<M>(k, d + 1)) by {
            if ln.lookup::<M>(k, d + 1) is Some || rn.lookup::<M>(k, d + 1) is Some {
                assert(hash_chunk(M::hash_of(k), d) == p);
                assert(self.lookup::<M>(k, d) == child_lookup::<K, V, M>(self.children_at::<M>(d), k, d));
                assert(right.lookup::<M>(k, d) == child_lookup::<K, V, M>(right.children_at::<M>(d), k, d));
            }
        }
    }

    /// A transformation of the entries of one side is a joint transformation
    /// with nothing on the other side.
    proof fn lemma_one_side_joint<
        M: HasherBv<u64, K>,
        R,
        B: Fn(&K, &V, &K, &V) -> MapJointTransformResult<V, R>,
        LF: Fn(&K, &V) -> MapTransformResult<V, R>,
        RF: Fn(&K, &V) -> MapTransformResult<V, R>,
    >(
        both_op: MapJointTransform<R, B>,
        left_op: MapTransform<R, LF>,
        right_op: MapTransform<R, RF>,
        n: MNode<K, V>,
        new: Option<MNode<K, V>>,
        d: nat,
        left_side: bool,
    )
        requires
            left_side ==> transformed_node::<K, V, R, LF, M>(left_op, n, new, d),
            !left_side ==> transformed_node::<K, V, R, RF, M>(right_op, n, new, d),
        ensures
            left_side ==> forall|k: K| #![trigger lookup_in::<K, V, M>(new, k, d)]
                joint_transformed_entry(both_op, left_op, right_op, k, n.lookup::<M>(k, d), None, lookup_in::<K, V, M>(new, k, d)),
            !left_side ==> forall|k: K| #![trigger lookup_in::<K, V, M>(new, k, d)]
                joint_transformed_entry(both_op, left_op, right_op, k, None, n.lookup::<M>(k, d), lookup_in::<K, V, M>(new, k, d)),
    {
        assert forall|k: K| #![trigger lookup_in::<K, V, M>(new, k, d)] left_side implies
            joint_transformed_entry(both_op, left_op, right_op, k, n.lookup::<M>(k, d), None, lookup_in::<K, V, M>(new, k, d)) by {
            assert(transformed_entry(left_op, k, n.lookup::<M>(k, d), lookup_in::<K, V, M>(new, k, d)));
        }
        assert forall|k: K| #![trigger lookup_in::<K, V, M>(new, k, d)] !left_side implies
            joint_transformed_entry(both_op, left_op, right_op, k, None, n.lookup::<M>(k, d), lookup_in::<K, V, M>(new, k, d)) by {
            assert(transformed_entry(right_op, k, n.lookup::<M>(k, d), lookup_in::<K, V, M>(new, k, d)));
        }
    }
}

// ----------------------------------------------------------------------------
// Transmutation
// ----------------------------------------------------------------------------

/// The outcome of transmuting the entries below a node: a node of the new
/// types, or nothing.
pub enum TransmuteResult<S, X, R> {
    C(CNode<S, X>, R),
    L(Arc<LNode<S, X>>, R),
    S(Arc<SNode<S, X>>, R),
    Removed(R),
}

impl<S, X, R> TransmuteResult<S, X, R> {
    /// The reduced secondary value.
    pub open spec fn reduced(self) -> R {
        match self {
            TransmuteResult::C(_, r) => r,
            TransmuteResult::L(_, r) => r,
            TransmuteResult::S(_, r) => r,
            TransmuteResult::Removed(r) => r,
        }
    }

    /// The node made, or `None` when no entry is left.
    pub open spec fn node(self) -> Option<MNode<S, X>> {
        match self {
            TransmuteResult::C(c, _) => Some(MNode::C(c)),
            TransmuteResult::L(l, _) => Some(MNode::L(l)),
            TransmuteResult::S(s, _) => Some(MNode::S(s)),
            TransmuteResult::Removed(_) => None,
        }
    }

    /// The entries of the list made.
    pub open spec fn entries(self) -> Seq<(S, X)> {
        match self {
            TransmuteResult::L(l, _) => l.entries(),
            TransmuteResult::S(s, _) => seq![(s.spec_key(), s.spec_value())],
            _ => Seq::empty(),
        }
    }
}

/// Every result that the transmutation may give for an entry whose value for
/// its key is given by `lookup` keeps the key's hash, and the results for
/// distinct keys make distinct keys.
pub open spec fn transmute_fits<K, V, S, X, R, F, M>(op: MapTransmute<R, F>, lookup: spec_fn(K) -> Option<V>) -> bool where
    F: Fn(&K, &V) -> MapTransmuteResult<S, X, R>,
    M: HasherBv<u64, K> + HasherBv<u64, S>,
 {
    &&& forall|k: K, r: MapTransmuteResult<S, X, R>|
        #![trigger op.gives(k, lookup(k)->Some_0, r)]
        lookup(k) is Some && op.gives(k, lookup(k)->Some_0, r) && r.new_entry() is Some ==> <M as HasherBv<
            u64,
            S,
        >>::hash_of(r.new_entry()->Some_0.0) == <M as HasherBv<u64, K>>::hash_of(k)
    &&& forall|k1: K, k2: K, r1: MapTransmuteResult<S, X, R>, r2: MapTransmuteResult<S, X, R>|
        #![trigger op.gives(k1, lookup(k1)->Some_0, r1), op.gives(k2, lookup(k2)->Some_0, r2)]
        lookup(k1) is Some && lookup(k2) is Some && k1 != k2 && op.gives(k1, lookup(k1)->Some_0, r1) && op.gives(
            k2,
            lookup(k2)->Some_0,
            r2,
        ) && r1.new_entry() is Some && r2.new_entry() is Some ==> r1.new_entry()->Some_0.0 != r2.new_entry()->Some_0.0
}

/// The results `outcomes`, one for each key that `lookup` finds, are results
/// that the transmutation may give for its entry, and the entries of the new
/// keys are what `new_lookup` finds.
pub open spec fn transmuted_lookups<K, V, S, X, R, F>(
    op: MapTransmute<R, F>,
    lookup: spec_fn(K) -> Option<V>,
    new_lookup: spec_fn(S) -> Option<X>,
    outcomes: Map<K, MapTransmuteResult<S, X, R>>,
) -> bool where F: Fn(&K, &V) -> MapTransmuteResult<S, X, R> {
    &&& forall|k: K| #[trigger] outcomes.dom().contains(k) <==> lookup(k) is Some
    &&& forall|k: K| #[trigger] outcomes.dom().contains(k) ==> op.gives(k, lookup(k)->Some_0, outcomes[k])
    &&& forall|k: K| #[trigger]
        outcomes.dom().contains(k) && outcomes[k].new_entry() is Some ==> new_lookup(outcomes[k].new_entry()->Some_0.0)
            == Some(outcomes[k].new_entry()->Some_0.1)
    &&& forall|s: S| #[trigger]
        new_lookup(s) is Some ==> exists|k: K| #[trigger]
            outcomes.dom().contains(k) && outcomes[k].new_entry() is Some && outcomes[k].new_entry()->Some_0.0 == s
}

/// The transmutation may be run on every entry that `lookup` finds.
pub open spec fn transmute_accepts<K, V, S, X, R, F>(op: MapTransmute<R, F>, lookup: spec_fn(K) -> Option<V>) -> bool where
    F: Fn(&K, &V) -> MapTransmuteResult<S, X, R>,
 {
    forall|k: K| #[trigger] lookup(k) is Some ==> op.accepts(k, lookup(k)->Some_0)
}

/// The lookup of a list of entries.
pub open spec fn list_lookup<K, V>(es: Seq<(K, V)>) -> spec_fn(K) -> Option<V> {
    |k: K| entries_lookup(es, k)
}

/// The lookup of a node at depth `d`.
pub open spec fn node_lookup<K, V, M: HasherBv<u64, K>>(n: MNode<K, V>, d: nat) -> spec_fn(K) -> Option<V> {
    |k: K| n.lookup::<M>(k, d)
}

/// The lookup of an optional node at depth `d`.
pub open spec fn opt_lookup<K, V, M: HasherBv<u64, K>>(n: Option<MNode<K, V>>, d: nat) -> spec_fn(K) -> Option<V> {
    |k: K| lookup_in::<K, V, M>(n, k, d)
}

/// The value of the front entry's result and that of the rest of a list of
/// distinct keys, combined, reduce the values of the transmutation for the
/// whole list.
pub proof fn lemma_transmute_reduced_cons<
    K,
    V,
    S,
    X,
    R: Clone + Default,
    RO: Fn(&R, &R) -> R,
    F: Fn(&K, &V) -> MapTransmuteResult<S, X, R>,
>(reduce_op: RO, op: MapTransmute<R, F>, e: (K, V), rest: Seq<(K, V)>, lr: R, rr: R, v: R)
    requires
        entries_keys(seq![e] + rest).no_duplicates(),
        transmute_entry_reduced(op, e.0, e.1, lr),
        transmute_reduced_at(reduce_op, op, list_lookup(rest), rr),
        reduce_op.ensures((&lr, &rr), v),
    ensures
        transmute_reduced_at(reduce_op, op, list_lookup(seq![e] + rest), v),
{
    let es = seq![e] + rest;
    let lr_ = list_lookup(rest);
    let le = list_lookup(es);
    let t_rest = choose|t: Reduction<K, R>|
        #![trigger t.combines(reduce_op)]
        reduction_fits(t, reduce_op, lookup_keys(lr_), transmute_entries_ok(op, lr_), transmute_others_ok(op))
            && t.value() == rr;
    lemma_cons_keys(e, rest);
    lemma_entries_lookup_some(rest, e.0);
    lemma_cons_lookup(e, rest, e.0);
    assert forall|k: K, y: R| lookup_keys(lr_).contains(k) && #[trigger] transmute_entries_ok(op, lr_)(k, y) implies #[trigger] transmute_entries_ok(
        op,
        le,
    )(k, y) by {
        lemma_cons_lookup(e, rest, k);
    }
    lemma_fits_weaken(
        t_rest,
        reduce_op,
        lookup_keys(lr_),
        lookup_keys(lr_),
        transmute_entries_ok(op, lr_),
        transmute_entries_ok(op, le),
        transmute_others_ok(op),
        transmute_others_ok(op),
    );
    let t_head = Reduction::<K, R>::Entry(e.0, lr);
    lemma_fits_entry(e.0, lr, reduce_op, transmute_entries_ok(op, le), transmute_others_ok(op));
    assert(set![e.0].disjoint(lookup_keys(lr_)));
    lemma_fits_both(
        t_head,
        t_rest,
        v,
        reduce_op,
        set![e.0],
        lookup_keys(lr_),
        transmute_entries_ok(op, le),
        transmute_others_ok(op),
    );
    assert(set![e.0].union(lookup_keys(lr_)) =~= lookup_keys(le)) by {
        assert forall|k: K| #[trigger] lookup_keys(le).contains(k) == set![e.0].union(lookup_keys(lr_)).contains(k) by {
            lemma_cons_lookup(e, rest, k);
        }
    }
    let t = Reduction::Both(Box::new(t_head), Box::new(t_rest), v);
    assert(t.combines(reduce_op));
}

/// The value for a single entry reduces the values of the transmutation for a
/// list of it alone.
pub proof fn lemma_transmute_reduced_single<
    K,
    V,
    S,
    X,
    R: Clone + Default,
    RO: Fn(&R, &R) -> R,
    F: Fn(&K, &V) -> MapTransmuteResult<S, X, R>,
>(reduce_op: RO, op: MapTransmute<R, F>, e: (K, V), y: R)
    requires
        transmute_entry_reduced(op, e.0, e.1, y),
    ensures
        transmute_reduced_at(reduce_op, op, list_lookup(seq![e]), y),
{
    let es = seq![e];
    let le = list_lookup(es);
    lemma_cons_lookup(e, Seq::empty(), e.0);
    assert(seq![e] + Seq::<(K, V)>::empty() =~= es);
    let t = Reduction::<K, R>::Entry(e.0, y);
    lemma_fits_entry(e.0, y, reduce_op, transmute_entries_ok(op, le), transmute_others_ok(op));
    assert(set![e.0] =~= lookup_keys(le)) by {
        assert forall|k: K| #[trigger] lookup_keys(le).contains(k) == set![e.0].contains(k) by {
            lemma_cons_lookup(e, Seq::empty(), k);
        }
    }
    assert(t.combines(reduce_op));
}

impl<K: Key, V> SNode<K, V> {
    /// Run the transmutation on the entry.
    pub fn transmute<S, X, R: Clone, F: Fn(&K, &V) -> MapTransmuteResult<S, X, R>>(
        this: &Arc<SNode<K, V>>,
        op: &MapTransmute<R, F>,
    ) -> (res: (TransmuteResult<S, X, R>, Ghost<MapTransmuteResult<S, X, R>>))
        requires
            op.accepts(this.spec_key(), this.spec_value()),
        ensures
            res.0 is S || res.0 is Removed,
            op.gives(this.spec_key(), this.spec_value(), res.1@),
            res.0.entries() == match res.1@.new_entry() {
                Some(e) => seq![e],
                None => Seq::empty(),
            },
            transmute_entry_reduced(*op, this.spec_key(), this.spec_value(), res.0.reduced()),
    {
        let r = op.call(this.key(), this.value());
        let ghost g = r;
        proof {
            assert(op matches MapTransmute::Generic(f) ==> f.ensures((&this.spec_key(), &this.spec_value()), r));
        }
        match r {
            MapTransmuteResult::Transmuted(k, v, red) => {
                let s = SNode::new(k, v);
                (TransmuteResult::S(s, red), Ghost(g))
            },
            MapTransmuteResult::Removed(red) => (TransmuteResult::Removed(red), Ghost(g)),
        }
    }
}

/// The transmutation of a list with an entry in front: the front entry's result
/// in front of the transmuted rest.
proof fn lemma_transmuted_cons<K, V, S, X, R, F, M>(
    op: MapTransmute<R, F>,
    e: (K, V),
    rest: Seq<(K, V)>,
    rest2: Seq<(S, X)>,
    outs: Map<K, MapTransmuteResult<S, X, R>>,
    r: MapTransmuteResult<S, X, R>,
) where F: Fn(&K, &V) -> MapTransmuteResult<S, X, R>, M: HasherBv<u64, K> + HasherBv<u64, S>
    requires
        transmuted_lookups(op, list_lookup(rest), list_lookup(rest2), outs),
        entries_keys(rest2).no_duplicates(),
        op.gives(e.0, e.1, r),
        entries_keys(seq![e] + rest).no_duplicates(),
        transmute_fits::<K, V, S, X, R, F, M>(op, list_lookup(seq![e] + rest)),
    ensures
        ({
            let es2 = match r.new_entry() {
                Some(f) => seq![f] + rest2,
                None => rest2,
            };
            &&& transmuted_lookups(op, list_lookup(seq![e] + rest), list_lookup(es2), outs.insert(e.0, r))
            &&& entries_keys(es2).no_duplicates()
        }),
{
    let es = seq![e] + rest;
    let es2 = match r.new_entry() {
        Some(f) => seq![f] + rest2,
        None => rest2,
    };
    let outs2 = outs.insert(e.0, r);
    lemma_cons_keys(e, rest);
    assert forall|k: K| #[trigger] entries_lookup(es, k) == if e.0 == k { Some(e.1) } else { entries_lookup(rest, k) } by {
        lemma_cons_lookup(e, rest, k);
    }
    assert(!outs.dom().contains(e.0)) by {
        lemma_entries_lookup_some(rest, e.0);
        assert(list_lookup(rest)(e.0) == entries_lookup(rest, e.0));
    }
    // The front's new key differs from every new key of the rest.
    if let Some(f) = r.new_entry() {
        assert forall|s: S| #[trigger] entries_lookup(rest2, s) is Some implies s != f.0 by {
            assert(list_lookup(rest2)(s) is Some);
            let k = choose|k: K| #[trigger]
                outs.dom().contains(k) && outs[k].new_entry() is Some && outs[k].new_entry()->Some_0.0 == s;
            assert(list_lookup(rest)(k) is Some);
            assert(k != e.0);
            assert(list_lookup(es)(k) == list_lookup(rest)(k));
            assert(list_lookup(es)(e.0) == Some(e.1));
            assert(op.gives(k, list_lookup(rest)(k)->Some_0, outs[k]));
            assert(op.gives(k, list_lookup(es)(k)->Some_0, outs[k]));
            assert(op.gives(e.0, list_lookup(es)(e.0)->Some_0, r));
        }
        lemma_entries_lookup_some(rest2, f.0);
        lemma_cons_keys(f, rest2);
        assert forall|s: S| #[trigger] entries_lookup(es2, s) == if f.0 == s { Some(f.1) } else { entries_lookup(rest2, s) } by {
            lemma_cons_lookup(f, rest2, s);
        }
    }
    assert forall|k: K| #[trigger] outs2.dom().contains(k) <==> list_lookup(es)(k) is Some by {
        assert(list_lookup(rest)(k) == entries_lookup(rest, k));
    }
    assert forall|k: K| #[trigger] outs2.dom().contains(k) implies op.gives(k, list_lookup(es)(k)->Some_0, outs2[k]) by {
        if k != e.0 {
            assert(list_lookup(rest)(k) == entries_lookup(rest, k));
        }
    }
    assert forall|k: K| #[trigger] outs2.dom().contains(k) && outs2[k].new_entry() is Some implies list_lookup(es2)(
        outs2[k].new_entry()->Some_0.0,
    ) == Some(outs2[k].new_entry()->Some_0.1) by {
        if k != e.0 {
            let f2 = outs[k].new_entry()->Some_0;
            assert(list_lookup(rest2)(f2.0) == Some(f2.1));
            assert(entries_lookup(rest2, f2.0) == Some(f2.1));
        }
    }
    assert forall|s: S| #[trigger] list_lookup(es2)(s) is Some implies exists|k: K| #[trigger]
        outs2.dom().contains(k) && outs2[k].new_entry() is Some && outs2[k].new_entry()->Some_0.0 == s by {
        if r.new_entry() matches Some(f) && f.0 == s {
            assert(outs2.dom().contains(e.0));
        } else {
            assert(entries_lookup(rest2, s) is Some);
            assert(list_lookup(rest2)(s) is Some);
            let k = choose|k: K| #[trigger]
                outs.dom().contains(k) && outs[k].new_entry() is Some && outs[k].new_entry()->Some_0.0 == s;
            assert(outs2.dom().contains(k));
        }
    }
}

impl<K: Key, V> LNode<K, V> {
    /// Run the transmutation on every entry of the list, front first.
    pub fn transmute<S, X, R: Clone + Default, RO: Fn(&R, &R) -> R, F: Fn(&K, &V) -> MapTransmuteResult<S, X, R>, M>(
        this: &Arc<LNode<K, V>>,
        reduce_op: &RO,
        op: &MapTransmute<R, F>,
    ) -> (res: (TransmuteResult<S, X, R>, Ghost<Map<K, MapTransmuteResult<S, X, R>>>)) where
        M: HasherBv<u64, K> + HasherBv<u64, S>,

        requires
            this.sizes_ok(),
            entries_keys(this.entries()).no_duplicates(),
            transmute_accepts(*op, list_lookup(this.entries())),
            transmute_fits::<K, V, S, X, R, F, M>(*op, list_lookup(this.entries())),
            reduces_all(*reduce_op),
        ensures
            !(res.0 is C),
            res.0 matches TransmuteResult::L(l, _) ==> l.sizes_ok(),
            entries_keys(res.0.entries()).no_duplicates(),
            res.0.entries().len() <= this.entries().len(),
            transmuted_lookups(*op, list_lookup(this.entries()), list_lookup(res.0.entries()), res.1@),
            transmute_reduced_at(*reduce_op, *op, list_lookup(this.entries()), res.0.reduced()),
        decreases *this,
    {
        let ghost es = this.entries();
        let ghost e = (this.entry.spec_key(), this.entry.spec_value());
        let ghost rest = this.next.entries();
        proof {
            lemma_cons_keys(e, rest);
            assert(es == seq![e] + rest);
            assert forall|k: K| #[trigger] entries_lookup(es, k) == if e.0 == k { Some(e.1) } else { entries_lookup(rest, k) } by {
                lemma_cons_lookup(e, rest, k);
            }
            assert forall|k: K| #[trigger] list_lookup(rest)(k) is Some implies op.accepts(k, list_lookup(rest)(k)->Some_0) by {
                lemma_entries_lookup_some(rest, k);
                assert(list_lookup(es)(k) == list_lookup(rest)(k));
            }
            assert(list_lookup(es)(e.0) == Some(e.1));
            assert forall|k: K, r: MapTransmuteResult<S, X, R>|
                #![trigger op.gives(k, list_lookup(rest)(k)->Some_0, r)]
                list_lookup(rest)(k) is Some && op.gives(k, list_lookup(rest)(k)->Some_0, r) && r.new_entry() is Some
                implies <M as HasherBv<u64, S>>::hash_of(r.new_entry()->Some_0.0) == <M as HasherBv<u64, K>>::hash_of(k) by {
                lemma_entries_lookup_some(rest, k);
                assert(list_lookup(es)(k) == list_lookup(rest)(k));
                assert(op.gives(k, list_lookup(es)(k)->Some_0, r));
            }
            assert forall|k1: K, k2: K, r1: MapTransmuteResult<S, X, R>, r2: MapTransmuteResult<S, X, R>|
                #![trigger op.gives(k1, list_lookup(rest)(k1)->Some_0, r1), op.gives(k2, list_lookup(rest)(k2)->Some_0, r2)]
                list_lookup(rest)(k1) is Some && list_lookup(rest)(k2) is Some && k1 != k2 && op.gives(
                    k1,
                    list_lookup(rest)(k1)->Some_0,
                    r1,
                ) && op.gives(k2, list_lookup(rest)(k2)->Some_0, r2) && r1.new_entry() is Some && r2.new_entry() is Some
                implies r1.new_entry()->Some_0.0 != r2.new_entry()->Some_0.0 by {
                lemma_entries_lookup_some(rest, k1);
                lemma_entries_lookup_some(rest, k2);
                assert(list_lookup(es)(k1) == list_lookup(rest)(k1));
                assert(list_lookup(es)(k2) == list_lookup(rest)(k2));
                assert(op.gives(k1, list_lookup(es)(k1)->Some_0, r1));
                assert(op.gives(k2, list_lookup(es)(k2)->Some_0, r2));
            }
        }
        let (next, outs) = match &this.next {
            LNodeNext::L(l) => Self::transmute::<S, X, R, RO, F, M>(l, reduce_op, op),
            LNodeNext::S(s) => {
                let ghost se = (s.spec_key(), s.spec_value());
                proof {
                    assert(rest == seq![se]);
                    lemma_cons_lookup(se, Seq::empty(), se.0);
                    assert(seq![se] + Seq::<(K, V)>::empty() =~= rest);
                    assert(list_lookup(rest)(se.0) == Some(se.1));
                }
                let (t, g) = SNode::transmute(s, op);
                let ghost outs = Map::<K, MapTransmuteResult<S, X, R>>::empty().insert(se.0, g@);
                proof {
                    let rest2 = t.entries();
                    assert(entries_keys(Seq::<(K, V)>::empty()) =~= Seq::<K>::empty());
                    assert(transmuted_lookups(*op, list_lookup(Seq::<(K, V)>::empty()), list_lookup(Seq::<(S, X)>::empty()), Map::<K, MapTransmuteResult<S, X, R>>::empty()));
                    assert(entries_keys(Seq::<(S, X)>::empty()) =~= Seq::<S>::empty());
                    assert(entries_keys(seq![se] + Seq::<(K, V)>::empty()) =~= seq![se.0]);
                    assert forall|k1: K, k2: K, r1: MapTransmuteResult<S, X, R>, r2: MapTransmuteResult<S, X, R>|
                        #![trigger op.gives(k1, list_lookup(seq![se] + Seq::<(K, V)>::empty())(k1)->Some_0, r1), op.gives(k2, list_lookup(seq![se] + Seq::<(K, V)>::empty())(k2)->Some_0, r2)]
                        list_lookup(seq![se] + Seq::<(K, V)>::empty())(k1) is Some && list_lookup(seq![se] + Seq::<(K, V)>::empty())(k2) is Some && k1 != k2
                        implies !(op.gives(k1, list_lookup(seq![se] + Seq::<(K, V)>::empty())(k1)->Some_0, r1) && op.gives(k2, list_lookup(seq![se] + Seq::<(K, V)>::empty())(k2)->Some_0, r2) && r1.new_entry() is Some && r2.new_entry() is Some && r1.new_entry()->Some_0.0 == r2.new_entry()->Some_0.0) by {
                        lemma_cons_lookup(se, Seq::empty(), k1);
                        lemma_cons_lookup(se, Seq::empty(), k2);
                    }
                    lemma_transmuted_cons::<K, V, S, X, R, F, M>(*op, se, Seq::empty(), Seq::empty(), Map::empty(), g@);
                    match g@.new_entry() {
                        Some(f) => {
                            assert(seq![f] + Seq::<(S, X)>::empty() =~= rest2);
                        },
                        None => {
                            assert(rest2 =~= Seq::<(S, X)>::empty());
                        },
                    }
                    assert(list_lookup(seq![se] + Seq::<(K, V)>::empty()) == list_lookup(rest));
                    lemma_transmute_reduced_single(*reduce_op, *op, se, t.reduced());
                }
                (t, Ghost(outs))
            },
        };
        let r = op.call(this.entry.key(), this.entry.value());
        proof {
            assert(op.gives(e.0, e.1, r));
            lemma_transmuted_cons::<K, V, S, X, R, F, M>(*op, e, rest, next.entries(), outs@, r);
            assert(op matches MapTransmute::Generic(f) ==> f.ensures((&e.0, &e.1), r));
        }
        let res = Self::transmute_result(this, r, next, reduce_op);
        proof {
            lemma_transmute_reduced_cons(*reduce_op, *op, e, rest, r.reduced(), next.reduced(), res.reduced());
        }
        (res, Ghost(outs@.insert(e.0, r)))
    }

    /// The list after the front entry's result `result` and the rest's outcome `next`.
    fn transmute_result<S, X, R, RO: Fn(&R, &R) -> R>(
        this: &Arc<LNode<K, V>>,
        result: MapTransmuteResult<S, X, R>,
        next: TransmuteResult<S, X, R>,
        reduce_op: &RO,
    ) -> (res: TransmuteResult<S, X, R>)
        requires
            this.sizes_ok(),
            !(next is C),
            next matches TransmuteResult::L(l, _) ==> l.sizes_ok(),
            next.entries().len() <= this.next.entries().len(),
            reduces_all(*reduce_op),
        ensures
            !(res is C),
            res matches TransmuteResult::L(l, _) ==> l.sizes_ok(),
            res.entries() == match result.new_entry() {
                Some(f) => seq![f] + next.entries(),
                None => next.entries(),
            },
            reduce_op.ensures((&result.reduced(), &next.reduced()), res.reduced()),
    {
        proof {
            assert(this.entries().len() == 1 + this.next.entries().len());
        }
        match result {
            MapTransmuteResult::Transmuted(lk, lv, lr) => {
                let front = SNode::new(lk, lv);
                match next {
                    TransmuteResult::L(lnode, rr) => TransmuteResult::L(LNode::new(front, LNodeNext::L(lnode)), reduce_op(&lr, &rr)),
                    TransmuteResult::S(snode, rr) => TransmuteResult::L(LNode::new(front, LNodeNext::S(snode)), reduce_op(&lr, &rr)),
                    TransmuteResult::Removed(rr) => {
                        proof {
                            assert(seq![(front.spec_key(), front.spec_value())] + Seq::<(S, X)>::empty() =~= seq![(front.spec_key(), front.spec_value())]);
                        }
                        TransmuteResult::S(front, reduce_op(&lr, &rr))
                    },
                    TransmuteResult::C(_, rr) => {
                        proof {
                            assert(false);
                        }
                        TransmuteResult::Removed(rr)
                    },
                }
            },
            MapTransmuteResult::Removed(lr) => match next {
                TransmuteResult::L(lnode, rr) => TransmuteResult::L(lnode, reduce_op(&lr, &rr)),
                TransmuteResult::S(snode, rr) => TransmuteResult::S(snode, reduce_op(&lr, &rr)),
                TransmuteResult::Removed(rr) => TransmuteResult::Removed(reduce_op(&lr, &rr)),
                TransmuteResult::C(_, rr) => {
                    proof {
                        assert(false);
                    }
                    TransmuteResult::Removed(rr)
                },
            },
        }
    }
}

impl<K, V> MNode<K, V> {
    /// The reduction of the transmutation's values for the children of a
    /// `CNode` before position `p`, combined with that for the child at `p`, is
    /// one for the children up to `p`.
    proof fn lemma_transmute_reduced_child<
        S,
        X,
        R: Clone + Default,
        RO: Fn(&R, &R) -> R,
        F: Fn(&K, &V) -> MapTransmuteResult<S, X, R>,
        M: HasherBv<u64, K>,
    >(self, reduce_op: RO, op: MapTransmute<R, F>, d: nat, p: int, t: Reduction<K, R>, child_r: R, v: R) -> (t2:
        Reduction<K, R>)
        requires
            self.wf::<M>(d),
            self is C,
            self->C_0.children().contains_key(p),
            reduction_fits(
                t,
                reduce_op,
                keys_before::<K, V, M>(self, d, p),
                transmute_entries_ok(op, node_lookup::<K, V, M>(self, d)),
                transmute_others_ok(op),
            ),
            transmute_reduced_at(reduce_op, op, node_lookup::<K, V, M>(self->C_0.children()[p], d + 1), child_r),
            reduce_op.ensures((&t.value(), &child_r), v),
        ensures
            reduction_fits(
                t2,
                reduce_op,
                keys_before::<K, V, M>(self, d, p + 1),
                transmute_entries_ok(op, node_lookup::<K, V, M>(self, d)),
                transmute_others_ok(op),
            ),
            t2.value() == v,
    {
        let child = self->C_0.children()[p];
        let cl = node_lookup::<K, V, M>(child, d + 1);
        let pl = node_lookup::<K, V, M>(self, d);
        self.lemma_child::<M>(d, p);
        let tc = choose|tc: Reduction<K, R>|
            #![trigger tc.combines(reduce_op)]
            reduction_fits(tc, reduce_op, lookup_keys(cl), transmute_entries_ok(op, cl), transmute_others_ok(op))
                && tc.value() == child_r;
        let at_p = Set::new(|k: K| self.lookup::<M>(k, d) is Some && hash_chunk(M::hash_of(k), d) == p);
        assert(lookup_keys(cl) =~= at_p);
        assert forall|k: K, y: R| lookup_keys(cl).contains(k) && #[trigger] transmute_entries_ok(op, cl)(k, y) implies #[trigger] transmute_entries_ok(
            op,
            pl,
        )(k, y) by {
            assert(child.lookup::<M>(k, d + 1) is Some);
        }
        lemma_fits_weaken(
            tc,
            reduce_op,
            lookup_keys(cl),
            at_p,
            transmute_entries_ok(op, cl),
            transmute_entries_ok(op, pl),
            transmute_others_ok(op),
            transmute_others_ok(op),
        );
        lemma_fits_both(
            t,
            tc,
            v,
            reduce_op,
            keys_before::<K, V, M>(self, d, p),
            at_p,
            transmute_entries_ok(op, pl),
            transmute_others_ok(op),
        );
        assert(keys_before::<K, V, M>(self, d, p).union(at_p) =~= keys_before::<K, V, M>(self, d, p + 1));
        Reduction::Both(Box::new(t), Box::new(tc), v)
    }

    /// The child of a `CNode` at `p` may be transmuted where the `CNode` may.
    proof fn lemma_transmute_child<S, X, R, F, M>(self, op: MapTransmute<R, F>, d: nat, p: int) where
        F: Fn(&K, &V) -> MapTransmuteResult<S, X, R>,
        M: HasherBv<u64, K> + HasherBv<u64, S>,

        requires
            self.wf::<M>(d),
            self is C,
            self->C_0.children().contains_key(p),
            transmute_accepts(op, node_lookup::<K, V, M>(self, d)),
            transmute_fits::<K, V, S, X, R, F, M>(op, node_lookup::<K, V, M>(self, d)),
        ensures
            transmute_accepts(op, node_lookup::<K, V, M>(self->C_0.children()[p], d + 1)),
            transmute_fits::<K, V, S, X, R, F, M>(op, node_lookup::<K, V, M>(self->C_0.children()[p], d + 1)),
            forall|k: K| #[trigger]
                node_lookup::<K, V, M>(self->C_0.children()[p], d + 1)(k) is Some ==> node_lookup::<K, V, M>(self, d)(k)
                    == node_lookup::<K, V, M>(self->C_0.children()[p], d + 1)(k),
    {
        let child = self->C_0.children()[p];
        let pl = node_lookup::<K, V, M>(self, d);
        let cl = node_lookup::<K, V, M>(child, d + 1);
        self.lemma_child::<M>(d, p);
        assert forall|k: K| #[trigger] cl(k) is Some implies pl(k) == cl(k) by {
            assert(child.lookup::<M>(k, d + 1) is Some);
        }
        assert forall|k: K| #[trigger] cl(k) is Some implies op.accepts(k, cl(k)->Some_0) by {
            assert(pl(k) == cl(k));
        }
        assert forall|k: K, r: MapTransmuteResult<S, X, R>|
            #![trigger op.gives(k, cl(k)->Some_0, r)]
            cl(k) is Some && op.gives(k, cl(k)->Some_0, r) && r.new_entry() is Some implies <M as HasherBv<u64, S>>::hash_of(
            r.new_entry()->Some_0.0,
        ) == <M as HasherBv<u64, K>>::hash_of(k) by {
            assert(pl(k) == cl(k));
            assert(op.gives(k, pl(k)->Some_0, r));
        }
        assert forall|k1: K, k2: K, r1: MapTransmuteResult<S, X, R>, r2: MapTransmuteResult<S, X, R>|
            #![trigger op.gives(k1, cl(k1)->Some_0, r1), op.gives(k2, cl(k2)->Some_0, r2)]
            cl(k1) is Some && cl(k2) is Some && k1 != k2 && op.gives(k1, cl(k1)->Some_0, r1) && op.gives(
                k2,
                cl(k2)->Some_0,
                r2,
            ) && r1.new_entry() is Some && r2.new_entry() is Some implies r1.new_entry()->Some_0.0 != r2.new_entry()->Some_0.0 by {
            assert(pl(k1) == cl(k1));
            assert(pl(k2) == cl(k2));
            assert(op.gives(k1, pl(k1)->Some_0, r1));
            assert(op.gives(k2, pl(k2)->Some_0, r2));
        }
    }
}

impl<K: Key, V> MNode<K, V> {
    /// Run the transmutation on every entry below the node at `depth`, keeping
    /// each new entry where the entry it comes from was.
    pub fn transmute<S, X, R: Clone + Default, RO: Fn(&R, &R) -> R, F: Fn(&K, &V) -> MapTransmuteResult<S, X, R>, M>(
        &self,
        reduce_op: &RO,
        op: &MapTransmute<R, F>,
        depth: usize,
    ) -> (res: (TransmuteResult<S, X, R>, Ghost<Map<K, MapTransmuteResult<S, X, R>>>)) where
        M: HasherBv<u64, K> + HasherBv<u64, S>,

        requires
            self.wf::<M>(depth as nat),
            depth <= 13,
            transmute_accepts(*op, node_lookup::<K, V, M>(*self, depth as nat)),
            transmute_fits::<K, V, S, X, R, F, M>(*op, node_lookup::<K, V, M>(*self, depth as nat)),
            reduces_all(*reduce_op),
        ensures
            res.0.node() matches Some(n) ==> n.wf::<M>(depth as nat) && n.size_of() <= self.size_of(),
            transmuted_lookups(
                *op,
                node_lookup::<K, V, M>(*self, depth as nat),
                opt_lookup::<S, X, M>(res.0.node(), depth as nat),
                res.1@,
            ),
            transmute_reduced_at(*reduce_op, *op, node_lookup::<K, V, M>(*self, depth as nat), res.0.reduced()),
        decreases 13 - depth, 1nat,
    {
        let ghost d = depth as nat;
        match self {
            MNode::C(c) => c.transmute::<S, X, R, RO, F, M>(reduce_op, op, depth),
            MNode::L(l) => {
                proof {
                    assert(node_lookup::<K, V, M>(*self, d) =~= list_lookup(l.entries())) by {
                        assert forall|k: K| #[trigger] node_lookup::<K, V, M>(*self, d)(k) == list_lookup(l.entries())(k) by {
                            self.lemma_flat_lookup::<M>(k, d);
                        }
                    }
                }
                let (t, outs) = LNode::transmute::<S, X, R, RO, F, M>(l, reduce_op, op);
                proof {
                    self.lemma_transmuted_flat::<S, X, R, F, M>(*op, t, outs@, d);
                }
                (t, outs)
            },
            MNode::S(s) => {
                let ghost e = (s.spec_key(), s.spec_value());
                proof {
                    assert(node_lookup::<K, V, M>(*self, d) =~= list_lookup(seq![e])) by {
                        assert forall|k: K| #[trigger] node_lookup::<K, V, M>(*self, d)(k) == list_lookup(seq![e])(k) by {
                            self.lemma_flat_lookup::<M>(k, d);
                        }
                    }
                    assert(list_lookup(seq![e])(e.0) == Some(e.1)) by {
                        lemma_cons_lookup(e, Seq::empty(), e.0);
                        assert(seq![e] + Seq::<(K, V)>::empty() =~= seq![e]);
                    }
                }
                let (t, g) = SNode::transmute(s, op);
                let ghost outs = Map::<K, MapTransmuteResult<S, X, R>>::empty().insert(e.0, g@);
                proof {
                    assert(entries_keys(Seq::<(K, V)>::empty()) =~= Seq::<K>::empty());
                    assert(entries_keys(Seq::<(S, X)>::empty()) =~= Seq::<S>::empty());
                    assert(entries_keys(seq![e] + Seq::<(K, V)>::empty()) =~= seq![e.0]);
                    assert(seq![e] + Seq::<(K, V)>::empty() =~= seq![e]);
                    lemma_transmuted_cons::<K, V, S, X, R, F, M>(*op, e, Seq::empty(), Seq::empty(), Map::empty(), g@);
                    match g@.new_entry() {
                        Some(f) => {
                            assert(seq![f] + Seq::<(S, X)>::empty() =~= t.entries());
                        },
                        None => {
                            assert(t.entries() =~= Seq::<(S, X)>::empty());
                        },
                    }
                    self.lemma_transmuted_flat::<S, X, R, F, M>(*op, t, outs, d);
                    lemma_transmute_reduced_single(*reduce_op, *op, e, t.reduced());
                }
                (t, Ghost(outs))
            },
        }
    }

    /// A single-entry or list node whose list of entries was transmuted is
    /// transmuted as a node, into a well-formed node no larger.
    proof fn lemma_transmuted_flat<S, X, R, F, M>(
        self,
        op: MapTransmute<R, F>,
        t: TransmuteResult<S, X, R>,
        outs: Map<K, MapTransmuteResult<S, X, R>>,
        d: nat,
    ) where
        F: Fn(&K, &V) -> MapTransmuteResult<S, X, R>,
        M: HasherBv<u64, K> + HasherBv<u64, S>,

        requires
            self is S || self is L,
            self.wf::<M>(d),
            !(t is C),
            t matches TransmuteResult::L(l, _) ==> l.sizes_ok(),
            entries_keys(t.entries()).no_duplicates(),
            t.entries().len() <= self.flat_entries().len(),
            transmute_fits::<K, V, S, X, R, F, M>(op, node_lookup::<K, V, M>(self, d)),
            node_lookup::<K, V, M>(self, d) == list_lookup(self.flat_entries()),
            transmuted_lookups(op, list_lookup(self.flat_entries()), list_lookup(t.entries()), outs),
        ensures
            t.node() matches Some(n) ==> n.wf::<M>(d) && n.size_of() <= self.size_of(),
            transmuted_lookups(op, node_lookup::<K, V, M>(self, d), opt_lookup::<S, X, M>(t.node(), d), outs),
    {
        let es2 = t.entries();
        assert(opt_lookup::<S, X, M>(t.node(), d) =~= list_lookup(es2)) by {
            assert forall|s: S| #[trigger] opt_lookup::<S, X, M>(t.node(), d)(s) == list_lookup(es2)(s) by {
                match t.node() {
                    Some(n) => {
                        n.lemma_flat_lookup::<M>(s, d);
                    },
                    None => {
                        assert(es2.len() == 0);
                    },
                }
            }
        }
        self.lemma_size_view::<M>(d);
        if let MNode::L(l) = self {
            l.lemma_len();
        }
        if let TransmuteResult::L(l, _) = t {
            l.lemma_len();
            self.lemma_flat::<M>(d, d);
            assert forall|i: int| 0 <= i < es2.len() implies #[trigger] <M as HasherBv<u64, S>>::hash_of(es2[i].0)
                == self.flat_hash::<M>() by {
                assert(entries_keys(es2)[i] == es2[i].0);
                lemma_entries_lookup_some(es2, es2[i].0);
                assert(list_lookup(es2)(es2[i].0) is Some);
                let k = choose|k: K| #[trigger]
                    outs.dom().contains(k) && outs[k].new_entry() is Some && outs[k].new_entry()->Some_0.0 == es2[i].0;
                assert(node_lookup::<K, V, M>(self, d)(k) is Some);
                assert(op.gives(k, node_lookup::<K, V, M>(self, d)(k)->Some_0, outs[k]));
                assert(self.lookup::<M>(k, d) is Some);
            }
            assert(<M as HasherBv<u64, S>>::hash_of(es2[0].0) == self.flat_hash::<M>());
        }
    }
}

impl<K: Key, V> CNode<K, V> {
    /// Run the transmutation on every entry below the node at `depth`, child
    /// after child, and gather the children left at their positions.
    pub fn transmute<S, X, R: Clone + Default, RO: Fn(&R, &R) -> R, F: Fn(&K, &V) -> MapTransmuteResult<S, X, R>, M>(
        &self,
        reduce_op: &RO,
        op: &MapTransmute<R, F>,
        depth: usize,
    ) -> (res: (TransmuteResult<S, X, R>, Ghost<Map<K, MapTransmuteResult<S, X, R>>>)) where
        M: HasherBv<u64, K> + HasherBv<u64, S>,

        requires
            MNode::C(*self).wf::<M>(depth as nat),
            transmute_accepts(*op, node_lookup::<K, V, M>(MNode::C(*self), depth as nat)),
            transmute_fits::<K, V, S, X, R, F, M>(*op, node_lookup::<K, V, M>(MNode::C(*self), depth as nat)),
            reduces_all(*reduce_op),
        ensures
            res.0.node() matches Some(n) ==> n.wf::<M>(depth as nat) && n.size_of() <= MNode::C(*self).size_of(),
            transmuted_lookups(
                *op,
                node_lookup::<K, V, M>(MNode::C(*self), depth as nat),
                opt_lookup::<S, X, M>(res.0.node(), depth as nat),
                res.1@,
            ),
            transmute_reduced_at(*reduce_op, *op, node_lookup::<K, V, M>(MNode::C(*self), depth as nat), res.0.reduced()),
        decreases 13 - depth, 0nat,
    {
        let ghost c = MNode::C(*self);
        let ghost d = depth as nat;
        let ghost old_ch = self.children();
        let ghost pl = node_lookup::<K, V, M>(c, d);
        let mut size: usize = 0;
        let mut bits_t: u32 = u32::zero_word();
        let mut values_t: Vec<MNode<S, X>> = Vec::new();
        let mut reduced: R = R::default();
        let ghost mut newc: Map<int, MNode<S, X>> = Map::empty();
        let ghost mut keys: Set<S> = Set::empty();
        let ghost mut oldk: Set<K> = Set::empty();
        let ghost mut outs: Map<K, MapTransmuteResult<S, X, R>> = Map::empty();
        let ghost mut red_t: Reduction<K, R> = Reduction::Other(reduced);
        proof {
            lemma_count_zero(bits_t.bit_seq());
            c.lemma_size_view::<M>(d);
            lemma_fits_other(reduced, *reduce_op, transmute_entries_ok(*op, pl), transmute_others_ok(*op));
            assert(keys_before::<K, V, M>(c, d, 0) =~= Set::<K>::empty()) by {
                assert forall|k: K| !keys_before::<K, V, M>(c, d, 0).contains(k) by {
                    lemma_hash_chunk_range(<M as HasherBv<u64, K>>::hash_of(k), d);
                }
            }
        }
        let mut index: usize = 0;
        while index < 32
            invariant
                index <= 32,
                c == MNode::C(*self),
                d == depth as nat,
                old_ch == self.children(),
                pl == node_lookup::<K, V, M>(c, d),
                c.wf::<M>(d),
                transmute_accepts(*op, pl),
                transmute_fits::<K, V, S, X, R, F, M>(*op, pl),
                reduces_all(*reduce_op),
                c.view_at::<M>(d).dom().finite(),
                c.view_at::<M>(d).len() == self.spec_size(),
                bits_t.bit_seq().len() == 32,
                forall|p: int| 0 <= p < 32 ==> #[trigger] bits_t.bit_seq()[p] == newc.contains_key(p),
                forall|p: int|
                    #[trigger] newc.contains_key(p) ==> {
                        &&& 0 <= p < index
                        &&& newc[p].wf::<M>(d + 1)
                        &&& values_t@[rank(bits_t.bit_seq(), p) as int] == newc[p]
                        &&& forall|s: S| #[trigger]
                            newc[p].lookup::<M>(s, d + 1) is Some ==> hash_chunk(<M as HasherBv<u64, S>>::hash_of(s), d) == p
                    },
                values_t@.len() == count_set(bits_t.bit_seq()),
                forall|k: K| #[trigger]
                    outs.dom().contains(k) <==> (hash_chunk(<M as HasherBv<u64, K>>::hash_of(k), d) < index && pl(k) is Some),
                forall|k: K| #[trigger] outs.dom().contains(k) ==> op.gives(k, pl(k)->Some_0, outs[k]),
                forall|k: K| #[trigger]
                    outs.dom().contains(k) && outs[k].new_entry() is Some ==> child_lookup::<S, X, M>(
                        newc,
                        outs[k].new_entry()->Some_0.0,
                        d,
                    ) == Some(outs[k].new_entry()->Some_0.1),
                forall|s: S| #[trigger]
                    child_lookup::<S, X, M>(newc, s, d) is Some ==> exists|k: K| #[trigger]
                        outs.dom().contains(k) && outs[k].new_entry() is Some && outs[k].new_entry()->Some_0.0 == s,
                keys.finite(),
                size == keys.len(),
                forall|s: S| #[trigger] keys.contains(s) <==> child_lookup::<S, X, M>(newc, s, d) is Some,
                oldk.finite(),
                size <= oldk.len(),
                red_t.value() == reduced,
                reduction_fits(
                    red_t,
                    *reduce_op,
                    keys_before::<K, V, M>(c, d, index as int),
                    transmute_entries_ok(*op, pl),
                    transmute_others_ok(*op),
                ),
                oldk.subset_of(c.view_at::<M>(d).dom()),
                forall|k: K| #[trigger] oldk.contains(k) ==> hash_chunk(<M as HasherBv<u64, K>>::hash_of(k), d) < index,
            decreases 32 - index,
        {
            let ghost pre_newc = newc;
            let ghost pre_keys = keys;
            let ghost pre_oldk = oldk;
            let ghost pre_outs = outs;
            let ghost pre_bits = bits_t.bit_seq();
            let ghost p = index as int;
            match self.nodes.at_index(index) {
                Ok(node) => {
                    let ghost cl = node_lookup::<K, V, M>(*node, d + 1);
                    proof {
                        c.lemma_child::<M>(d, p);
                        c.lemma_transmute_child::<S, X, R, F, M>(*op, d, p);
                        node.lemma_size_view::<M>(d + 1);
                    }
                    let (t, couts) = node.transmute::<S, X, R, RO, F, M>(reduce_op, op, depth + 1);
                    let r = match t {
                        TransmuteResult::C(cn, r) => (Some(MNode::C(cn)), r),
                        TransmuteResult::L(l, r) => (Some(MNode::L(l)), r),
                        TransmuteResult::S(s, r) => (Some(MNode::S(s)), r),
                        TransmuteResult::Removed(r) => (None, r),
                    };
                    let (new_child, red) = r;
                    reduced = reduce_op(&reduced, &red);
                    proof {
                        assert(*node == old_ch[p]);
                        red_t = c.lemma_transmute_reduced_child::<S, X, R, RO, F, M>(*reduce_op, *op, d, p, red_t, red, reduced);
                    }
                    let ghost cn_keys = node.view_at::<M>(d + 1).dom();
                    proof {
                        outs = pre_outs.union_prefer_right(couts@);
                        oldk = pre_oldk.union(cn_keys);
                        // The keys of the child lie at its position; the new keys keep their hashes.
                        assert forall|k: K| #[trigger] couts@.dom().contains(k) implies hash_chunk(
                            <M as HasherBv<u64, K>>::hash_of(k),
                            d,
                        ) == p && pl(k) == cl(k) by {
                            assert(cl(k) is Some);
                            assert(node.lookup::<M>(k, d + 1) is Some);
                        }
                        assert forall|k: K| #[trigger] outs.dom().contains(k) implies op.gives(k, pl(k)->Some_0, outs[k]) by {
                            if couts@.dom().contains(k) {
                                assert(op.gives(k, cl(k)->Some_0, couts@[k]));
                            }
                        }
                        assert forall|k: K| #[trigger] outs.dom().contains(k) <==> (hash_chunk(
                            <M as HasherBv<u64, K>>::hash_of(k),
                            d,
                        ) < index + 1 && pl(k) is Some) by {
                            if hash_chunk(<M as HasherBv<u64, K>>::hash_of(k), d) == p && pl(k) is Some {
                                assert(c.lookup::<M>(k, d) == node.lookup::<M>(k, d + 1));
                                assert(cl(k) is Some);
                            }
                        }
                        assert(pre_oldk.disjoint(cn_keys)) by {
                            assert forall|k: K| pre_oldk.contains(k) implies !cn_keys.contains(k) by {
                                if cn_keys.contains(k) {
                                    assert(node.lookup::<M>(k, d + 1) is Some);
                                }
                            }
                        }
                        vstd::set_lib::lemma_set_disjoint_lens(pre_oldk, cn_keys);
                        assert(oldk.subset_of(c.view_at::<M>(d).dom())) by {
                            assert forall|k: K| oldk.contains(k) implies #[trigger] c.view_at::<M>(d).dom().contains(k) by {
                                if cn_keys.contains(k) {
                                    assert(node.lookup::<M>(k, d + 1) is Some);
                                    assert(c.lookup::<M>(k, d) is Some);
                                }
                            }
                        }
                        vstd::set_lib::lemma_len_subset(oldk, c.view_at::<M>(d).dom());
                    }
                    let ghost nco = new_child;
                    match new_child {
                        Some(n) => {
                            let ghost nd = n.view_at::<M>(d + 1).dom();
                            proof {
                                n.lemma_size_view::<M>(d + 1);
                                assert forall|s: S| #[trigger] n.lookup::<M>(s, d + 1) is Some implies hash_chunk(
                                    <M as HasherBv<u64, S>>::hash_of(s),
                                    d,
                                ) == p by {
                                    assert(opt_lookup::<S, X, M>(Some(n), d + 1)(s) is Some);
                                    let k = choose|k: K| #[trigger]
                                        couts@.dom().contains(k) && couts@[k].new_entry() is Some && couts@[k].new_entry()->Some_0.0 == s;
                                    assert(op.gives(k, cl(k)->Some_0, couts@[k]));
                                    assert(op.gives(k, pl(k)->Some_0, couts@[k]));
                                }
                                assert(pre_keys.disjoint(nd)) by {
                                    assert forall|s: S| pre_keys.contains(s) implies !nd.contains(s) by {
                                        assert(child_lookup::<S, X, M>(pre_newc, s, d) is Some);
                                    }
                                }
                                vstd::set_lib::lemma_set_disjoint_lens(pre_keys, nd);
                            }
                            size = size + n.size();
                            let bit = u32::nth_bit(index).unwrap();
                            proof {
                                lemma_only_bit(32, p);
                                assert(!pre_bits[p]);
                            }
                            bits_t = bits_t.bit_insert(bit).unwrap();
                            values_t.push(n);
                            proof {
                                newc = pre_newc.insert(p, n);
                                keys = pre_keys.union(nd);
                                lemma_count_set_bit(pre_bits, p, p);
                                lemma_count_split(pre_bits, p);
                                lemma_count_zero(pre_bits.skip(p));
                                assert(bits_t.bit_seq() == pre_bits.update(p, true));
                                assert forall|q: int| #[trigger] newc.contains_key(q) implies values_t@[rank(
                                    bits_t.bit_seq(),
                                    q,
                                ) as int] == newc[q] by {
                                    lemma_count_set_bit(pre_bits, p, q);
                                    if q != p {
                                        lemma_rank_lt_count(pre_bits, q);
                                    }
                                }
                                assert forall|s: S| #[trigger] keys.contains(s) <==> child_lookup::<S, X, M>(newc, s, d) is Some by {
                                    if hash_chunk(<M as HasherBv<u64, S>>::hash_of(s), d) == p {
                                        if pre_keys.contains(s) {
                                            assert(child_lookup::<S, X, M>(pre_newc, s, d) is Some);
                                        }
                                    } else {
                                        assert(child_lookup::<S, X, M>(newc, s, d) == child_lookup::<S, X, M>(pre_newc, s, d));
                                    }
                                }
                            }
                        },
                        None => {},
                    }
                    proof {
                        assert forall|k: K| #[trigger] outs.dom().contains(k) && outs[k].new_entry() is Some implies child_lookup::<S, X, M>(
                            newc,
                            outs[k].new_entry()->Some_0.0,
                            d,
                        ) == Some(outs[k].new_entry()->Some_0.1) by {
                            let f = outs[k].new_entry()->Some_0;
                            assert(op.gives(k, pl(k)->Some_0, outs[k]));
                            assert(<M as HasherBv<u64, S>>::hash_of(f.0) == <M as HasherBv<u64, K>>::hash_of(k));
                            if couts@.dom().contains(k) {
                                assert(opt_lookup::<S, X, M>(nco, d + 1)(f.0) == Some(f.1));
                            } else {
                                assert(child_lookup::<S, X, M>(pre_newc, f.0, d) == Some(f.1));
                            }
                        }
                        assert forall|s: S| #[trigger] child_lookup::<S, X, M>(newc, s, d) is Some implies exists|k: K| #[trigger]
                            outs.dom().contains(k) && outs[k].new_entry() is Some && outs[k].new_entry()->Some_0.0 == s by {
                            if hash_chunk(<M as HasherBv<u64, S>>::hash_of(s), d) == p {
                                assert(opt_lookup::<S, X, M>(nco, d + 1)(s) is Some);
                                let k = choose|k: K| #[trigger]
                                    couts@.dom().contains(k) && couts@[k].new_entry() is Some && couts@[k].new_entry()->Some_0.0 == s;
                                assert(outs.dom().contains(k));
                            } else {
                                assert(child_lookup::<S, X, M>(pre_newc, s, d) is Some);
                                let k = choose|k: K| #[trigger]
                                    pre_outs.dom().contains(k) && pre_outs[k].new_entry() is Some && pre_outs[k].new_entry()->Some_0.0 == s;
                                assert(outs.dom().contains(k));
                                assert(!couts@.dom().contains(k));
                            }
                        }
                    }
                },
                Err(_) => {
                    proof {
                        assert(keys_before::<K, V, M>(c, d, p + 1) =~= keys_before::<K, V, M>(c, d, p)) by {
                            assert forall|k: K| #[trigger] keys_before::<K, V, M>(c, d, p + 1).contains(k) implies keys_before::<
                                K,
                                V,
                                M,
                            >(c, d, p).contains(k) by {
                                if hash_chunk(<M as HasherBv<u64, K>>::hash_of(k), d) == p {
                                    assert(!old_ch.contains_key(p));
                                }
                            }
                        }
                        assert forall|k: K| #[trigger] outs.dom().contains(k) <==> (hash_chunk(
                            <M as HasherBv<u64, K>>::hash_of(k),
                            d,
                        ) < index + 1 && pl(k) is Some) by {
                            if hash_chunk(<M as HasherBv<u64, K>>::hash_of(k), d) == p {
                                assert(c.lookup::<M>(k, d) is None);
                            }
                        }
                    }
                },
            }
            index = index + 1;
        }
        proof {
            assert forall|k: K| #[trigger] outs.dom().contains(k) <==> pl(k) is Some by {
                lemma_hash_chunk_range(<M as HasherBv<u64, K>>::hash_of(k), d);
            }
            vstd::set_lib::lemma_len_subset(oldk, c.view_at::<M>(d).dom());
            assert(keys_before::<K, V, M>(c, d, 32) =~= lookup_keys(pl)) by {
                assert forall|k: K| #[trigger] lookup_keys(pl).contains(k) implies keys_before::<K, V, M>(c, d, 32).contains(
                    k,
                ) by {
                    lemma_hash_chunk_range(<M as HasherBv<u64, K>>::hash_of(k), d);
                }
            }
            assert(red_t.combines(*reduce_op));
        }
        if values_t.len() == 0 {
            proof {
                lemma_count_zero(bits_t.bit_seq());
                assert forall|s: S| #[trigger] child_lookup::<S, X, M>(newc, s, d) is None by {
                    lemma_hash_chunk_range(<M as HasherBv<u64, S>>::hash_of(s), d);
                    let q = hash_chunk(<M as HasherBv<u64, S>>::hash_of(s), d);
                    if newc.contains_key(q) {
                        assert(bits_t.bit_seq()[q]);
                    }
                }
                assert(opt_lookup::<S, X, M>(None, d) =~= |s: S| child_lookup::<S, X, M>(newc, s, d));
            }
            return (TransmuteResult::Removed(reduced), Ghost(outs));
        }
        if values_t.len() == 1 {
            let ghost q = crate::bitseq::lemma_rank_onto(bits_t.bit_seq(), 0);
            proof {
                assert(newc.contains_key(q));
                assert forall|q2: int| #[trigger] newc.contains_key(q2) implies q2 == q by {
                    if q2 != q {
                        crate::bitseq::lemma_rank_injective(bits_t.bit_seq(), q, q2);
                        lemma_rank_lt_count(bits_t.bit_seq(), q2);
                    }
                }
            }
            match &values_t[0] {
                MNode::C(_) => {},
                MNode::L(l) => {
                    proof {
                        assert(MNode::L(*l) == newc[q]);
                        MNode::lemma_sole_child::<M>(newc, q, d);
                        assert(opt_lookup::<S, X, M>(Some(MNode::L(*l)), d) =~= |s: S| child_lookup::<S, X, M>(newc, s, d));
                        assert(newc[q].size_of() == keys.len()) by {
                            newc[q].lemma_size_view::<M>(d);
                            assert forall|s2: S| #[trigger] newc[q].view_at::<M>(d).dom().contains(s2) == keys.contains(s2) by {
                                assert(lookup_in::<S, X, M>(Some(newc[q]), s2, d) == child_lookup::<S, X, M>(newc, s2, d));
                            }
                            assert(newc[q].view_at::<M>(d).dom() =~= keys);
                        }
                    }
                    return (TransmuteResult::L(l.clone(), reduced), Ghost(outs));
                },
                MNode::S(s) => {
                    proof {
                        assert(MNode::S(*s) == newc[q]);
                        MNode::lemma_sole_child::<M>(newc, q, d);
                        assert(opt_lookup::<S, X, M>(Some(MNode::S(*s)), d) =~= |s2: S| child_lookup::<S, X, M>(newc, s2, d));
                        assert(newc[q].size_of() == keys.len()) by {
                            newc[q].lemma_size_view::<M>(d);
                            assert forall|s2: S| #[trigger] newc[q].view_at::<M>(d).dom().contains(s2) == keys.contains(s2) by {
                                assert(lookup_in::<S, X, M>(Some(newc[q]), s2, d) == child_lookup::<S, X, M>(newc, s2, d));
                            }
                            assert(newc[q].view_at::<M>(d).dom() =~= keys);
                        }
                    }
                    return (TransmuteResult::S(s.clone(), reduced), Ghost(outs));
                },
            }
        }
        match new_bit_indexed_array(bits_t, values_t, size) {
            Ok(arr) => {
                let cn = CNode::new(arr);
                proof {
                    assert(cn.children() =~= newc);
                    let n = MNode::C(cn);
                    assert forall|s: S| #[trigger] n.lookup::<M>(s, d) == child_lookup::<S, X, M>(newc, s, d) by {
                    }
                    assert(n.view_at::<M>(d).dom() =~= keys);
                    assert(opt_lookup::<S, X, M>(Some(n), d) =~= |s: S| child_lookup::<S, X, M>(newc, s, d));
                }
                (TransmuteResult::C(cn, reduced), Ghost(outs))
            },
            Err(_) => {
                proof {
                    assert(false);
                }
                (TransmuteResult::Removed(reduced), Ghost(outs))
            },
        }
    }
}


// ----------------------------------------------------------------------------
// Transformation with a transmuted side
// ----------------------------------------------------------------------------

/// The node that an optional outcome of a transformation makes of `old`.
pub open spec fn opt_node_after<K, V, R>(t: Option<TransformResult<K, V, R>>, old: MNode<K, V>) -> Option<MNode<K, V>> {
    match t {
        Some(t) => t.node_after(old),
        None => None,
    }
}

/// Each operation of `transform_with_transfuted` may be run on the entries
/// below `left` and `right` at depth `d` that it is run on.
pub open spec fn transfuted_accepts_below<K, V, W, R, B, LF, RF, M: HasherBv<u64, K>>(
    both_op: MapTransform<R, B>,
    left_op: MapTransform<R, LF>,
    right_op: SetTransmute<R, RF>,
    left: MNode<K, V>,
    right: MNode<K, W>,
    d: nat,
) -> bool where
    B: Fn(&K, &V, &K, &W) -> MapTransformResult<V, R>,
    LF: Fn(&K, &V) -> MapTransformResult<V, R>,
    RF: Fn(&K, &W) -> SetTransmuteResult<V, R>,
 {
    forall|k: K|
        #![trigger left.lookup::<M>(k, d)]
        #![trigger right.lookup::<M>(k, d)]
        transform_with_transfuted_accepts_entry(both_op, left_op, right_op, k, left.lookup::<M>(k, d), right.lookup::<M>(k, d))
}

/// `new` is what `transform_with_transfuted` makes of the nodes `left` and
/// `right` at depth `d`.
pub open spec fn transfuted_node<K, V, W, R, B, LF, RF, M: HasherBv<u64, K>>(
    both_op: MapTransform<R, B>,
    left_op: MapTransform<R, LF>,
    right_op: SetTransmute<R, RF>,
    left: MNode<K, V>,
    right: MNode<K, W>,
    new: Option<MNode<K, V>>,
    d: nat,
) -> bool where
    B: Fn(&K, &V, &K, &W) -> MapTransformResult<V, R>,
    LF: Fn(&K, &V) -> MapTransformResult<V, R>,
    RF: Fn(&K, &W) -> SetTransmuteResult<V, R>,
 {
    forall|k: K|
        #![trigger left.lookup::<M>(k, d)]
        #![trigger right.lookup::<M>(k, d)]
        #![trigger lookup_in::<K, V, M>(new, k, d)]
        transform_with_transfuted_entry(
            both_op,
            left_op,
            right_op,
            k,
            left.lookup::<M>(k, d),
            right.lookup::<M>(k, d),
            lookup_in::<K, V, M>(new, k, d),
        )
}

/// A transmutation that keeps each key keeps each entry in its place, and may
/// run on every entry that `lookup` finds where the transmutation of values may.
pub proof fn lemma_keyed_fits<K, W, X, R: Clone, RF, G, M>(
    keyed: MapTransmute<R, G>,
    op: SetTransmute<R, RF>,
    lookup: spec_fn(K) -> Option<W>,
) where
    RF: Fn(&K, &W) -> SetTransmuteResult<X, R>,
    G: Fn(&K, &W) -> MapTransmuteResult<K, X, R>,
    M: HasherBv<u64, K>,

    requires
        keyed_by(keyed, op),
        forall|k: K| #[trigger] lookup(k) is Some ==> op.accepts_entry(k, lookup(k)->Some_0),
    ensures
        transmute_accepts(keyed, lookup),
        transmute_fits::<K, W, K, X, R, G, M>(keyed, lookup),
{
    assert forall|k: K| #[trigger] lookup(k) is Some implies keyed.accepts::<K, W, K, X>(k, lookup(k)->Some_0) by {
        assert(op.accepts_entry(k, lookup(k)->Some_0));
    }
    assert forall|k: K, r: MapTransmuteResult<K, X, R>|
        lookup(k) is Some && #[trigger] keyed.gives(k, lookup(k)->Some_0, r) && r.new_entry() is Some implies r.new_entry()->Some_0.0
            == k by {
        let x = choose|x: SetTransmuteResult<X, R>| #[trigger] op.gives_entry(k, lookup(k)->Some_0, x) && r.new_entry() == keyed_entry(k, x);
    }
}

/// Transmuting the entries that `lookup` finds with a transmutation that keeps
/// each key runs the transmutation of values on each of them, key by key.
pub proof fn lemma_keyed_lookups<K, W, X, R: Clone, RF, G>(
    keyed: MapTransmute<R, G>,
    op: SetTransmute<R, RF>,
    lookup: spec_fn(K) -> Option<W>,
    new_lookup: spec_fn(K) -> Option<X>,
    outs: Map<K, MapTransmuteResult<K, X, R>>,
) where
    RF: Fn(&K, &W) -> SetTransmuteResult<X, R>,
    G: Fn(&K, &W) -> MapTransmuteResult<K, X, R>,

    requires
        keyed_by(keyed, op),
        transmuted_lookups(keyed, lookup, new_lookup, outs),
    ensures
        forall|k: K| #![trigger new_lookup(k)] set_transmuted_entry(op, k, lookup(k), new_lookup(k)),
{
    assert forall|k0: K| #[trigger] outs.dom().contains(k0) && outs[k0].new_entry() is Some implies outs[k0].new_entry()->Some_0.0
        == k0 by {
        assert(keyed.gives(k0, lookup(k0)->Some_0, outs[k0]));
        let x = choose|x: SetTransmuteResult<X, R>| #[trigger]
            op.gives_entry(k0, lookup(k0)->Some_0, x) && outs[k0].new_entry() == keyed_entry(k0, x);
    }
    assert forall|k: K| #![trigger new_lookup(k)] set_transmuted_entry(op, k, lookup(k), new_lookup(k)) by {
        if new_lookup(k) is Some {
            let k0 = choose|k0: K| #[trigger]
                outs.dom().contains(k0) && outs[k0].new_entry() is Some && outs[k0].new_entry()->Some_0.0 == k;
            assert(k0 == k);
        }
        if lookup(k) is Some {
            let w = lookup(k)->Some_0;
            assert(outs.dom().contains(k));
            assert(keyed.gives(k, w, outs[k]));
            let x = choose|x: SetTransmuteResult<X, R>| #[trigger] op.gives_entry(k, w, x) && outs[k].new_entry() == keyed_entry(k, x);
            assert(x.value() == new_lookup(k));
        }
    }
}

impl<K: Key, V> MNode<K, V> {
    /// Run `transform_with_transfuted` on the entries below `self` and `right`
    /// at `depth`: `both_op` on the keys of both sides, `left_op` on those of the
    /// left side only, and `right_op`, run as `keyed`, on those of the right
    /// side only. The result is of the left side's types.
    pub fn transform_with_transfuted<
        M: HasherBv<u64, K>,
        W,
        R: Clone + Default,
        RO: Fn(&R, &R) -> R,
        B: Fn(&K, &V, &K, &W) -> MapTransformResult<V, R>,
        LF: Fn(&K, &V) -> MapTransformResult<V, R>,
        RF: Fn(&K, &W) -> SetTransmuteResult<V, R>,
        G: Fn(&K, &W) -> MapTransmuteResult<K, V, R>,
    >(
        &self,
        right: &MNode<K, W>,
        reduce_op: &RO,
        both_op: &MapTransform<R, B>,
        left_op: &MapTransform<R, LF>,
        right_op: &SetTransmute<R, RF>,
        keyed: &MapTransmute<R, G>,
        depth: usize,
    ) -> (res: TransformResult<K, V, R>)
        requires
            self.wf::<M>(depth as nat),
            right.wf::<M>(depth as nat),
            depth <= 13,
            paths_agree::<K, V, W, M>(*self, *right, depth as nat),
            keys_below::<K, V, W, M>(*self, *right, depth as nat).len() <= usize::MAX,
            transfuted_accepts_below::<K, V, W, R, B, LF, RF, M>(*both_op, *left_op, *right_op, *self, *right, depth as nat),
            reduces_all(*reduce_op),
            keyed_by(*keyed, *right_op),
        ensures
            res.node_after(*self) matches Some(n) ==> n.wf::<M>(depth as nat),
            transfuted_node::<K, V, W, R, B, LF, RF, M>(
                *both_op,
                *left_op,
                *right_op,
                *self,
                *right,
                res.node_after(*self),
                depth as nat,
            ),
            pair_reduced_at(
                *reduce_op,
                transfuted_pred(*both_op, *left_op, *right_op),
                transfuted_others(*left_op, *right_op),
                node_lookup::<K, V, M>(*self, depth as nat),
                node_lookup::<K, W, M>(*right, depth as nat),
                res.reduced(),
            ),
        decreases 13 - depth, 1nat,
    {
        let same_hash = match self.flat_key::<M>() {
            Some(a) => match right.flat_key::<M>() {
                Some(b) => M::hash(a) == M::hash(b),
                None => false,
            },
            None => false,
        };
        if same_hash {
            self.transfuted_flat::<M, W, R, RO, B, LF, RF>(right, reduce_op, both_op, left_op, right_op, depth)
        } else {
            proof {
                if depth > max_depth() && !(self is C) && !(right is C) {
                    self.lemma_flat::<M>(depth as nat, depth as nat);
                    right.lemma_flat::<M>(depth as nat, depth as nat);
                    let k1 = self.flat_entries()[0].0;
                    let k2 = right.flat_entries()[0].0;
                    self.lemma_flat_lookup::<M>(k1, depth as nat);
                    right.lemma_flat_lookup::<M>(k2, depth as nat);
                    lemma_entries_lookup_some(self.flat_entries(), k1);
                    lemma_entries_lookup_some(right.flat_entries(), k2);
                    assert(entries_keys(self.flat_entries())[0] == k1);
                    assert(entries_keys(right.flat_entries())[0] == k2);
                    assert(self.lookup::<M>(k1, depth as nat) is Some);
                    assert(right.lookup::<M>(k2, depth as nat) is Some);
                    lemma_agree_all(M::hash_of(k1), M::hash_of(k2), depth as nat);
                }
            }
            self.transfuted_children::<M, W, R, RO, B, LF, RF, G>(right, reduce_op, both_op, left_op, right_op, keyed, depth)
        }
    }
}

impl<K: Key, V> MNode<K, V> {
    /// `transform_with_transfuted` on two single-entry or list nodes whose keys
    /// all have one hash, entry by entry: the left entries first, each with its
    /// right partner if there is one, then the right entries without a partner.
    pub fn transfuted_flat<
        M: HasherBv<u64, K>,
        W,
        R: Clone + Default,
        RO: Fn(&R, &R) -> R,
        B: Fn(&K, &V, &K, &W) -> MapTransformResult<V, R>,
        LF: Fn(&K, &V) -> MapTransformResult<V, R>,
        RF: Fn(&K, &W) -> SetTransmuteResult<V, R>,
    >(
        &self,
        right: &MNode<K, W>,
        reduce_op: &RO,
        both_op: &MapTransform<R, B>,
        left_op: &MapTransform<R, LF>,
        right_op: &SetTransmute<R, RF>,
        depth: usize,
    ) -> (res: TransformResult<K, V, R>)
        requires
            self is S || self is L,
            right is S || right is L,
            self.wf::<M>(depth as nat),
            right.wf::<M>(depth as nat),
            self.flat_hash::<M>() == right.flat_hash::<M>(),
            transfuted_accepts_below::<K, V, W, R, B, LF, RF, M>(*both_op, *left_op, *right_op, *self, *right, depth as nat),
            reduces_all(*reduce_op),
        ensures
            !(res is C),
            res.node_after(*self) matches Some(n) ==> n.wf::<M>(depth as nat),
            transfuted_node::<K, V, W, R, B, LF, RF, M>(
                *both_op,
                *left_op,
                *right_op,
                *self,
                *right,
                res.node_after(*self),
                depth as nat,
            ),
            pair_reduced_at(
                *reduce_op,
                transfuted_pred(*both_op, *left_op, *right_op),
                transfuted_others(*left_op, *right_op),
                node_lookup::<K, V, M>(*self, depth as nat),
                node_lookup::<K, W, M>(*right, depth as nat),
                res.reduced(),
            ),
    {
        let ghost d = depth as nat;
        let ghost les = self.flat_entries();
        let ghost res_ = right.flat_entries();
        proof {
            assert forall|k: K| #[trigger] self.lookup::<M>(k, d) == entries_lookup(les, k) by {
                self.lemma_flat_lookup::<M>(k, d);
            }
            assert forall|k: K| #[trigger] right.lookup::<M>(k, d) == entries_lookup(res_, k) by {
                right.lemma_flat_lookup::<M>(k, d);
            }
            assert forall|k: K| #[trigger] entries_lookup(les, k) == entries_lookup(les, k) implies transform_with_transfuted_accepts_entry(
                *both_op,
                *left_op,
                *right_op,
                k,
                entries_lookup(les, k),
                entries_lookup(res_, k),
            ) by {
                assert(self.lookup::<M>(k, d) == entries_lookup(les, k));
                assert(right.lookup::<M>(k, d) == entries_lookup(res_, k));
            }
            if let MNode::S(s) = self {
                assert(entries_keys(les) =~= seq![s.spec_key()]);
            }
            if let MNode::S(s) = right {
                assert(entries_keys(res_) =~= seq![s.spec_key()]);
            }
        }
        let lefts = self.snodes();
        let rights = right.snodes();
        let mut out: Vec<Arc<SNode<K, V>>> = Vec::new();
        let mut unchanged_l = true;
        let mut reduced = R::default();
        let ghost mut done: Set<K> = Set::empty();
        let ghost jok = pair_entries_ok(transfuted_pred(*both_op, *left_op, *right_op), list_lookup(les), list_lookup(res_));
        let ghost jot = transfuted_others(*left_op, *right_op);
        let ghost mut red_t: Reduction<K, R> = Reduction::Other(reduced);
        proof {
            assert(entries_keys(snode_entries(out@)) =~= Seq::<K>::empty());
            lemma_fits_other(reduced, *reduce_op, jok, jot);
        }
        let mut i: usize = 0;
        while i < lefts.len()
            invariant
                i <= lefts.len(),
                snode_entries(lefts@) == les,
                snode_entries(rights@) == res_,
                entries_keys(les).no_duplicates(),
                entries_keys(res_).no_duplicates(),
                forall|k: K| #[trigger]
                    entries_lookup(les, k) == entries_lookup(les, k) ==> transform_with_transfuted_accepts_entry(
                        *both_op,
                        *left_op,
                        *right_op,
                        k,
                        entries_lookup(les, k),
                        entries_lookup(res_, k),
                    ),
                reduces_all(*reduce_op),
                red_t.value() == reduced,
                reduction_fits(red_t, *reduce_op, done, jok, jot),
                jok == pair_entries_ok(transfuted_pred(*both_op, *left_op, *right_op), list_lookup(les), list_lookup(res_)),
                jot == transfuted_others(*left_op, *right_op),
                entries_keys(snode_entries(out@)).no_duplicates(),
                forall|k: K| #[trigger] entries_lookup(snode_entries(out@), k) is Some ==> done.contains(k),
                forall|k: K| #[trigger] done.contains(k) ==> entries_lookup(les, k) is Some,
                forall|j: int| i <= j < les.len() ==> !done.contains(#[trigger] les[j].0),
                forall|j: int| 0 <= j < i ==> done.contains(#[trigger] les[j].0),
                forall|k: K| #[trigger]
                    done.contains(k) ==> transform_with_transfuted_entry(
                        *both_op,
                        *left_op,
                        *right_op,
                        k,
                        entries_lookup(les, k),
                        entries_lookup(res_, k),
                        entries_lookup(snode_entries(out@), k),
                    ),
                unchanged_l ==> forall|k: K| #[trigger]
                    done.contains(k) ==> transform_with_transfuted_entry(
                        *both_op,
                        *left_op,
                        *right_op,
                        k,
                        entries_lookup(les, k),
                        entries_lookup(res_, k),
                        entries_lookup(les, k),
                    ),
            decreases lefts.len() - i,
        {
            let e = &lefts[i];
            let ghost key = e.spec_key();
            let ghost value = e.spec_value();
            let ghost os = snode_entries(out@);
            let ghost pre_done = done;
            let ghost mut pushed: Option<V> = None;
            proof {
                assert(les[i as int] == (key, value));
                lemma_entries_lookup_at(les, i as int);
                assert(!done.contains(key));
                assert(entries_lookup(os, key) is None);
                assert(transform_with_transfuted_accepts_entry(
                    *both_op,
                    *left_op,
                    *right_op,
                    key,
                    entries_lookup(les, key),
                    entries_lookup(res_, key),
                ));
            }
            match find_snode(&rights, e.key()) {
                Some(j) => {
                    let rn = &rights[j];
                    let ghost w = rn.spec_value();
                    proof {
                        assert(res_[j as int] == (key, w));
                        lemma_entries_lookup_at(res_, j as int);
                    }
                    let t = both_op.call_transform_transmute(e.key(), e.value(), rn.key(), rn.value());
                    proof {
                        assert(both_op.gives_transform_transmute(key, value, key, w, t));
                    }
                    let r = match t {
                        MapTransformResult::Unchanged(r) => {
                            out.push(e.clone());
                            proof {
                                pushed = Some(value);
                            }
                            r
                        },
                        MapTransformResult::Transformed(v, r) => {
                            let sn = SNode::new(e.key().key_clone(), v);
                            proof {
                                pushed = Some(sn.spec_value());
                            }
                            out.push(sn);
                            unchanged_l = false;
                            r
                        },
                        MapTransformResult::Removed(r) => {
                            unchanged_l = false;
                            r
                        },
                    };
                    reduced = reduce_op(&reduced, &r);
                    proof {
                        assert(list_lookup(les)(key) == Some(value));
                        assert(list_lookup(res_)(key) == Some(w));
                        assert(both_op matches MapTransform::Generic(f) ==> f.ensures((&key, &value, &key, &w), t));
                        assert(jok(key, r));
                        red_t = lemma_fits_add_entry(red_t, *reduce_op, pre_done, key, r, reduced, jok, jot);
                        assert(t.applied_to(value) == pushed);
                        assert(transform_with_transfuted_entry(*both_op, *left_op, *right_op, key, Some(value), Some(w), pushed));
                        if unchanged_l {
                            assert(t.applied_to(value) == Some(value));
                        }
                    }
                },
                None => {
                    proof {
                        lemma_entries_lookup_some(res_, key);
                    }
                    let t = left_op.call(e.key(), e.value());
                    proof {
                        assert(left_op.gives(key, value, t));
                    }
                    let r = match t {
                        MapTransformResult::Unchanged(r) => {
                            out.push(e.clone());
                            proof {
                                pushed = Some(value);
                            }
                            r
                        },
                        MapTransformResult::Transformed(v, r) => {
                            let sn = SNode::new(e.key().key_clone(), v);
                            proof {
                                pushed = Some(sn.spec_value());
                            }
                            out.push(sn);
                            unchanged_l = false;
                            r
                        },
                        MapTransformResult::Removed(r) => {
                            unchanged_l = false;
                            r
                        },
                    };
                    reduced = reduce_op(&reduced, &r);
                    proof {
                        assert(list_lookup(les)(key) == Some(value));
                        assert(list_lookup(res_)(key) is None);
                        assert(left_op matches MapTransform::Generic(f) ==> f.ensures((&key, &value), t));
                        assert(jok(key, r));
                        red_t = lemma_fits_add_entry(red_t, *reduce_op, pre_done, key, r, reduced, jok, jot);
                        assert(t.applied_to(value) == pushed);
                        assert(transform_with_transfuted_entry(*both_op, *left_op, *right_op, key, Some(value), None, pushed));
                        if unchanged_l {
                            assert(t.applied_to(value) == Some(value));
                        }
                    }
                },
            }
            proof {
                done = pre_done.insert(key);
                match pushed {
                    Some(x) => {
                        assert(snode_entries(out@) =~= os.push((key, x)));
                        lemma_entries_lookup_some(os, key);
                        lemma_push_keys(os, (key, x));
                        assert forall|k: K| #[trigger] entries_lookup(snode_entries(out@), k) == if k == key {
                            pushed
                        } else {
                            entries_lookup(os, k)
                        } by {
                            lemma_push_lookup(os, (key, x), k);
                        }
                    },
                    None => {
                        assert(snode_entries(out@) =~= os);
                    },
                }
                assert forall|j: int| i + 1 <= j < les.len() implies !done.contains(#[trigger] les[j].0) by {
                    assert(entries_keys(les)[j] == les[j].0);
                    assert(entries_keys(les)[i as int] == les[i as int].0);
                }
            }
            i = i + 1;
        }
        proof {
            assert forall|q: int| 0 <= q < res_.len() && #[trigger] done.contains(res_[q].0) implies entries_lookup(
                les,
                res_[q].0,
            ) is Some by {
            }
        }
        let mut j: usize = 0;
        while j < rights.len()
            invariant
                j <= rights.len(),
                snode_entries(lefts@) == les,
                snode_entries(rights@) == res_,
                entries_keys(les).no_duplicates(),
                entries_keys(res_).no_duplicates(),
                forall|k: K| #[trigger]
                    entries_lookup(les, k) == entries_lookup(les, k) ==> transform_with_transfuted_accepts_entry(
                        *both_op,
                        *left_op,
                        *right_op,
                        k,
                        entries_lookup(les, k),
                        entries_lookup(res_, k),
                    ),
                reduces_all(*reduce_op),
                red_t.value() == reduced,
                reduction_fits(red_t, *reduce_op, done, jok, jot),
                jok == pair_entries_ok(transfuted_pred(*both_op, *left_op, *right_op), list_lookup(les), list_lookup(res_)),
                jot == transfuted_others(*left_op, *right_op),
                entries_keys(snode_entries(out@)).no_duplicates(),
                forall|k: K| #[trigger] entries_lookup(snode_entries(out@), k) is Some ==> done.contains(k),
                forall|k: K| #[trigger]
                    done.contains(k) ==> entries_lookup(les, k) is Some || entries_lookup(res_, k) is Some,
                forall|q: int| 0 <= q < les.len() ==> done.contains(#[trigger] les[q].0),
                forall|q: int| 0 <= q < j ==> done.contains(#[trigger] res_[q].0),
                forall|q: int|
                    j <= q < res_.len() ==> (#[trigger] done.contains(res_[q].0) ==> entries_lookup(les, res_[q].0) is Some),
                forall|k: K| #[trigger]
                    done.contains(k) ==> transform_with_transfuted_entry(
                        *both_op,
                        *left_op,
                        *right_op,
                        k,
                        entries_lookup(les, k),
                        entries_lookup(res_, k),
                        entries_lookup(snode_entries(out@), k),
                    ),
                unchanged_l ==> forall|k: K| #[trigger]
                    done.contains(k) ==> transform_with_transfuted_entry(
                        *both_op,
                        *left_op,
                        *right_op,
                        k,
                        entries_lookup(les, k),
                        entries_lookup(res_, k),
                        entries_lookup(les, k),
                    ),
            decreases rights.len() - j,
        {
            let rn = &rights[j];
            let ghost key = rn.spec_key();
            let ghost w = rn.spec_value();
            let ghost os = snode_entries(out@);
            let ghost pre_done = done;
            let ghost mut pushed: Option<V> = None;
            proof {
                assert(res_[j as int] == (key, w));
                lemma_entries_lookup_at(res_, j as int);
            }
            match find_snode(&lefts, rn.key()) {
                Some(idx) => {
                    proof {
                        assert(les[idx as int].0 == key);
                    }
                },
                None => {
                    proof {
                        lemma_entries_lookup_some(les, key);
                        assert(!done.contains(key));
                        assert(entries_lookup(os, key) is None);
                        assert(transform_with_transfuted_accepts_entry(
                            *both_op,
                            *left_op,
                            *right_op,
                            key,
                            entries_lookup(les, key),
                            entries_lookup(res_, key),
                        ));
                    }
                    let t = right_op.call_transmute(rn.key(), rn.value());
                    proof {
                        assert(right_op.gives_entry(key, w, t));
                    }
                    let r = match t {
                        SetTransmuteResult::Transmuted(v, r) => {
                            let sn = SNode::new(rn.key().key_clone(), v);
                            proof {
                                pushed = Some(sn.spec_value());
                            }
                            out.push(sn);
                            unchanged_l = false;
                            r
                        },
                        SetTransmuteResult::Removed(r) => r,
                    };
                    reduced = reduce_op(&reduced, &r);
                    proof {
                        assert(list_lookup(res_)(key) == Some(w));
                        assert(list_lookup(les)(key) is None);
                        assert(right_op matches SetTransmute::Generic(f) ==> f.ensures((&key, &w), t));
                        assert(jok(key, r));
                        red_t = lemma_fits_add_entry(red_t, *reduce_op, pre_done, key, r, reduced, jok, jot);
                        assert(t.value() == pushed);
                        assert(transform_with_transfuted_entry(*both_op, *left_op, *right_op, key, None, Some(w), pushed));
                        done = pre_done.insert(key);
                        match pushed {
                            Some(x) => {
                                assert(snode_entries(out@) =~= os.push((key, x)));
                                lemma_entries_lookup_some(os, key);
                                lemma_push_keys(os, (key, x));
                                assert forall|k: K| #[trigger] entries_lookup(snode_entries(out@), k) == if k == key {
                                    pushed
                                } else {
                                    entries_lookup(os, k)
                                } by {
                                    lemma_push_lookup(os, (key, x), k);
                                }
                            },
                            None => {
                                assert(snode_entries(out@) =~= os);
                            },
                        }
                        assert forall|q: int| j + 1 <= q < res_.len() && #[trigger] done.contains(res_[q].0)
                            implies entries_lookup(les, res_[q].0) is Some by {
                            assert(entries_keys(res_)[q] == res_[q].0);
                            assert(entries_keys(res_)[j as int] == res_[j as int].0);
                        }
                    }
                },
            }
            j = j + 1;
        }
        proof {
            assert forall|k: K| !done.contains(k) implies entries_lookup(les, k) is None && entries_lookup(res_, k) is None
                && #[trigger] entries_lookup(snode_entries(out@), k) is None by {
                lemma_entries_lookup_some(les, k);
                lemma_entries_lookup_some(res_, k);
                if entries_lookup(les, k) is Some {
                    let q = choose|q: int| 0 <= q < les.len() && les[q].0 == k && les[q].1 == entries_lookup(les, k)->Some_0;
                    assert(done.contains(les[q].0));
                }
                if entries_lookup(res_, k) is Some {
                    let q = choose|q: int| 0 <= q < res_.len() && res_[q].0 == k && res_[q].1 == entries_lookup(res_, k)->Some_0;
                    assert(done.contains(res_[q].0));
                }
            }
        }
        proof {
            assert forall|k: K|
                !done.contains(k) implies #[trigger] entries_lookup(les, k) is None && entries_lookup(res_, k) is None by {
                assert(entries_lookup(snode_entries(out@), k) is None);
            }
            assert(list_lookup(les) =~= node_lookup::<K, V, M>(*self, d));
            assert(list_lookup(res_) =~= node_lookup::<K, W, M>(*right, d));
            assert(done =~= lookup_keys(list_lookup(les)).union(lookup_keys(list_lookup(res_)))) by {
                assert forall|k: K| #[trigger] done.contains(k) implies list_lookup(les)(k) is Some || list_lookup(res_)(k) is Some by {
                }
            }
            assert(red_t.combines(*reduce_op));
        }
        if unchanged_l {
            proof {
                self.lemma_transfuted_flat_same::<M, W, R, B, LF, RF>(*right, *both_op, *left_op, *right_op, done, d);
            }
            return TransformResult::Unchanged(reduced);
        }
        let ghost os = snode_entries(out@);
        match MNode::from_snodes(&out) {
            None => {
                proof {
                    assert forall|k: K| #[trigger] entries_lookup(os, k) is None by {
                        assert(os.len() == 0);
                    }
                    self.lemma_transfuted_flat_new::<M, W, R, B, LF, RF>(*right, *both_op, *left_op, *right_op, None, os, done, d);
                }
                TransformResult::Removed(reduced)
            },
            Some(MNode::S(s)) => {
                proof {
                    self.lemma_transfuted_flat_new::<M, W, R, B, LF, RF>(
                        *right,
                        *both_op,
                        *left_op,
                        *right_op,
                        Some(MNode::S(s)),
                        os,
                        done,
                        d,
                    );
                }
                TransformResult::S(s, reduced)
            },
            Some(MNode::L(l)) => {
                proof {
                    self.lemma_transfuted_flat_new::<M, W, R, B, LF, RF>(
                        *right,
                        *both_op,
                        *left_op,
                        *right_op,
                        Some(MNode::L(l)),
                        os,
                        done,
                        d,
                    );
                }
                TransformResult::L(l, reduced)
            },
            Some(MNode::C(_)) => {
                proof {
                    assert(false);
                }
                TransformResult::Removed(reduced)
            },
        }
    }
}

impl<K, V> MNode<K, V> {
    /// `transform_with_transfuted` on two single-entry or list nodes leaves the
    /// left one as it is when each key held by either side may hold what it holds.
    proof fn lemma_transfuted_flat_same<
        M: HasherBv<u64, K>,
        W,
        R,
        B: Fn(&K, &V, &K, &W) -> MapTransformResult<V, R>,
        LF: Fn(&K, &V) -> MapTransformResult<V, R>,
        RF: Fn(&K, &W) -> SetTransmuteResult<V, R>,
    >(
        self,
        right: MNode<K, W>,
        both_op: MapTransform<R, B>,
        left_op: MapTransform<R, LF>,
        right_op: SetTransmute<R, RF>,
        done: Set<K>,
        d: nat,
    )
        requires
            self is S || self is L,
            right is S || right is L,
            forall|k: K| #[trigger] self.lookup::<M>(k, d) == entries_lookup(self.flat_entries(), k),
            forall|k: K| #[trigger] right.lookup::<M>(k, d) == entries_lookup(right.flat_entries(), k),
            forall|k: K|
                !done.contains(k) ==> #[trigger] entries_lookup(self.flat_entries(), k) is None && entries_lookup(
                    right.flat_entries(),
                    k,
                ) is None,
            forall|k: K| #[trigger]
                done.contains(k) ==> transform_with_transfuted_entry(
                    both_op,
                    left_op,
                    right_op,
                    k,
                    entries_lookup(self.flat_entries(), k),
                    entries_lookup(right.flat_entries(), k),
                    entries_lookup(self.flat_entries(), k),
                ),
        ensures
            transfuted_node::<K, V, W, R, B, LF, RF, M>(both_op, left_op, right_op, self, right, Some(self), d),
    {
        assert forall|k: K| transform_with_transfuted_entry(
            both_op,
            left_op,
            right_op,
            k,
            #[trigger] self.lookup::<M>(k, d),
            right.lookup::<M>(k, d),
            lookup_in::<K, V, M>(Some(self), k, d),
        ) by {
            if !done.contains(k) {
                assert(entries_lookup(self.flat_entries(), k) is None);
                assert(entries_lookup(right.flat_entries(), k) is None);
            }
        }
    }

    /// `transform_with_transfuted` on two single-entry or list nodes of one hash
    /// makes the node of the entries `os` when each key may hold what `os` holds.
    proof fn lemma_transfuted_flat_new<
        M: HasherBv<u64, K>,
        W,
        R,
        B: Fn(&K, &V, &K, &W) -> MapTransformResult<V, R>,
        LF: Fn(&K, &V) -> MapTransformResult<V, R>,
        RF: Fn(&K, &W) -> SetTransmuteResult<V, R>,
    >(
        self,
        right: MNode<K, W>,
        both_op: MapTransform<R, B>,
        left_op: MapTransform<R, LF>,
        right_op: SetTransmute<R, RF>,
        new: Option<MNode<K, V>>,
        os: Seq<(K, V)>,
        done: Set<K>,
        d: nat,
    )
        requires
            self is S || self is L,
            right is S || right is L,
            self.wf::<M>(d),
            right.wf::<M>(d),
            self.flat_hash::<M>() == right.flat_hash::<M>(),
            forall|k: K| #[trigger] self.lookup::<M>(k, d) == entries_lookup(self.flat_entries(), k),
            forall|k: K| #[trigger] right.lookup::<M>(k, d) == entries_lookup(right.flat_entries(), k),
            match new {
                Some(n) => {
                    &&& n is S || n is L
                    &&& n.flat_entries() == os
                    &&& n matches MNode::L(l) ==> l.sizes_ok()
                },
                None => os.len() == 0,
            },
            entries_keys(os).no_duplicates(),
            forall|k: K| #[trigger] entries_lookup(os, k) is Some ==> done.contains(k),
            forall|k: K| #[trigger]
                done.contains(k) ==> entries_lookup(self.flat_entries(), k) is Some || entries_lookup(
                    right.flat_entries(),
                    k,
                ) is Some,
            forall|k: K|
                !done.contains(k) ==> #[trigger] entries_lookup(self.flat_entries(), k) is None && entries_lookup(
                    right.flat_entries(),
                    k,
                ) is None,
            forall|k: K| #[trigger]
                done.contains(k) ==> transform_with_transfuted_entry(
                    both_op,
                    left_op,
                    right_op,
                    k,
                    entries_lookup(self.flat_entries(), k),
                    entries_lookup(right.flat_entries(), k),
                    entries_lookup(os, k),
                ),
        ensures
            new matches Some(n) ==> n.wf::<M>(d),
            transfuted_node::<K, V, W, R, B, LF, RF, M>(both_op, left_op, right_op, self, right, new, d),
    {
        assert forall|k: K| #[trigger] lookup_in::<K, V, M>(new, k, d) == entries_lookup(os, k) by {
            if let Some(n) = new {
                n.lemma_flat_lookup::<M>(k, d);
            } else {
                assert(os.len() == 0);
            }
        }
        assert forall|k: K| transform_with_transfuted_entry(
            both_op,
            left_op,
            right_op,
            k,
            #[trigger] self.lookup::<M>(k, d),
            right.lookup::<M>(k, d),
            lookup_in::<K, V, M>(new, k, d),
        ) by {
            if !done.contains(k) {
                assert(entries_lookup(self.flat_entries(), k) is None);
                assert(entries_lookup(right.flat_entries(), k) is None);
                assert(entries_lookup(os, k) is None);
            }
        }
        if let Some(MNode::L(l)) = new {
            l.lemma_len();
            self.lemma_flat::<M>(d, d);
            right.lemma_flat::<M>(d, d);
            assert forall|i: int| 0 <= i < os.len() implies #[trigger] M::hash_of(os[i].0) == self.flat_hash::<M>() by {
                assert(entries_keys(os)[i] == os[i].0);
                lemma_entries_lookup_some(os, os[i].0);
                assert(done.contains(os[i].0));
                if entries_lookup(self.flat_entries(), os[i].0) is Some {
                    assert(self.lookup::<M>(os[i].0, d) is Some);
                } else {
                    assert(right.lookup::<M>(os[i].0, d) is Some);
                }
            }
            assert(M::hash_of(os[0].0) == self.flat_hash::<M>());
        }
    }
}

/// A reduction of values for the keys of two sides before a position,
/// combined with one for the keys at the position, is one for the keys up to
/// it: the lookups `cl` and `cr` at the position agree with the lookups `pl`
/// and `pr` on the keys `at_p` that lie there.
pub proof fn lemma_pair_reduced_step<K, V, W, R, RO: Fn(&R, &R) -> R>(
    reduce_op: RO,
    pred: spec_fn(K, Option<V>, Option<W>, R) -> bool,
    others: spec_fn(R) -> bool,
    pl: spec_fn(K) -> Option<V>,
    pr: spec_fn(K) -> Option<W>,
    cl: spec_fn(K) -> Option<V>,
    cr: spec_fn(K) -> Option<W>,
    at_p: Set<K>,
    before: Set<K>,
    t: Reduction<K, R>,
    child_r: R,
    v: R,
) -> (t2: Reduction<K, R>)
    requires
        reduction_fits(t, reduce_op, before, pair_entries_ok(pred, pl, pr), others),
        forall|k: K| #[trigger] at_p.contains(k) ==> pl(k) == cl(k) && pr(k) == cr(k),
        forall|k: K| #![trigger cl(k)] #![trigger cr(k)] (cl(k) is Some || cr(k) is Some) ==> at_p.contains(k),
        before.disjoint(at_p),
        pair_reduced_at(reduce_op, pred, others, cl, cr, child_r),
        reduce_op.ensures((&t.value(), &child_r), v),
    ensures
        reduction_fits(
            t2,
            reduce_op,
            before.union(lookup_keys(cl).union(lookup_keys(cr))),
            pair_entries_ok(pred, pl, pr),
            others,
        ),
        t2.value() == v,
{
    let ck = lookup_keys(cl).union(lookup_keys(cr));
    let tc = choose|tc: Reduction<K, R>|
        #![trigger tc.combines(reduce_op)]
        reduction_fits(tc, reduce_op, ck, pair_entries_ok(pred, cl, cr), others)
            && tc.value() == child_r;
    assert forall|k: K, y: R| ck.contains(k) && #[trigger] pair_entries_ok(pred, cl, cr)(k, y) implies #[trigger] pair_entries_ok(
        pred,
        pl,
        pr,
    )(k, y) by {
        assert(at_p.contains(k));
    }
    lemma_fits_weaken(
        tc,
        reduce_op,
        ck,
        ck,
        pair_entries_ok(pred, cl, cr),
        pair_entries_ok(pred, pl, pr),
        others,
        others,
    );
    assert(before.disjoint(ck)) by {
        assert forall|k: K| ck.contains(k) implies !before.contains(k) by {
            assert(at_p.contains(k));
        }
    }
    lemma_fits_both(t, tc, v, reduce_op, before, ck, pair_entries_ok(pred, pl, pr), others);
    Reduction::Both(Box::new(t), Box::new(tc), v)
}

/// A reduction of a transformation's values for a node on the left alone is
/// one of `transform_with_transfuted`'s values for it.
pub proof fn lemma_transfuted_reduced_left<K, V, W, R: Clone + Default, RO: Fn(&R, &R) -> R, B, LF, RF, M: HasherBv<u64, K>>(
    reduce_op: RO,
    both_op: MapTransform<R, B>,
    left_op: MapTransform<R, LF>,
    right_op: SetTransmute<R, RF>,
    n: MNode<K, V>,
    d: nat,
    r: R,
) where
    B: Fn(&K, &V, &K, &W) -> MapTransformResult<V, R>,
    LF: Fn(&K, &V) -> MapTransformResult<V, R>,
    RF: Fn(&K, &W) -> SetTransmuteResult<V, R>,

    requires
        node_transform_reduced::<K, V, R, RO, LF, M>(reduce_op, left_op, n, d, r),
    ensures
        pair_reduced_at(
            reduce_op,
            transfuted_pred(both_op, left_op, right_op),
            transfuted_others(left_op, right_op),
            node_lookup::<K, V, M>(n, d),
            no_lookup::<K, W>(),
            r,
        ),
{
    let nl = node_lookup::<K, V, M>(n, d);
    let pred = transfuted_pred(both_op, left_op, right_op);
    let t = choose|t: Reduction<K, R>|
        #![trigger t.combines(reduce_op)]
        reduction_fits(
            t,
            reduce_op,
            node_keys::<K, V, M>(n, d),
            node_transform_entries_ok::<K, V, R, LF, M>(left_op, n, d),
            transform_others_ok(left_op),
        ) && t.value() == r;
    assert(node_keys::<K, V, M>(n, d) =~= lookup_keys(nl).union(lookup_keys(no_lookup::<K, W>())));
    assert forall|y: R| #[trigger] transform_others_ok(left_op)(y) implies transfuted_others(left_op, right_op)(y) by {
    }
    lemma_fits_weaken(
        t,
        reduce_op,
        node_keys::<K, V, M>(n, d),
        lookup_keys(nl).union(lookup_keys(no_lookup::<K, W>())),
        node_transform_entries_ok::<K, V, R, LF, M>(left_op, n, d),
        pair_entries_ok(pred, nl, no_lookup::<K, W>()),
        transform_others_ok(left_op),
        transfuted_others(left_op, right_op),
    );
    assert(t.combines(reduce_op));
}

/// A reduction of a transmutation that keeps keys, for a node on the right
/// alone, is one of `transform_with_transfuted`'s values for it.
pub proof fn lemma_transfuted_reduced_right<K, V, W, R: Clone + Default, RO: Fn(&R, &R) -> R, B, LF, RF, G>(
    reduce_op: RO,
    both_op: MapTransform<R, B>,
    left_op: MapTransform<R, LF>,
    right_op: SetTransmute<R, RF>,
    keyed: MapTransmute<R, G>,
    rl: spec_fn(K) -> Option<W>,
    r: R,
) where
    B: Fn(&K, &V, &K, &W) -> MapTransformResult<V, R>,
    LF: Fn(&K, &V) -> MapTransformResult<V, R>,
    RF: Fn(&K, &W) -> SetTransmuteResult<V, R>,
    G: Fn(&K, &W) -> MapTransmuteResult<K, V, R>,

    requires
        keyed_by(keyed, right_op),
        transmute_reduced_at(reduce_op, keyed, rl, r),
    ensures
        pair_reduced_at(
            reduce_op,
            transfuted_pred(both_op, left_op, right_op),
            transfuted_others(left_op, right_op),
            no_lookup::<K, V>(),
            rl,
            r,
        ),
{
    let pred = transfuted_pred(both_op, left_op, right_op);
    let t = choose|t: Reduction<K, R>|
        #![trigger t.combines(reduce_op)]
        reduction_fits(t, reduce_op, lookup_keys(rl), transmute_entries_ok(keyed, rl), transmute_others_ok(keyed))
            && t.value() == r;
    assert(lookup_keys(rl) =~= lookup_keys(no_lookup::<K, V>()).union(lookup_keys(rl)));
    assert forall|k: K, y: R| lookup_keys(rl).contains(k) && #[trigger] transmute_entries_ok(keyed, rl)(k, y) implies #[trigger] pair_entries_ok(
        pred,
        no_lookup::<K, V>(),
        rl,
    )(k, y) by {
        let w = rl(k)->Some_0;
        match keyed {
            MapTransmute::Generic(g) => {
                let res = choose|res: MapTransmuteResult<K, V, R>| #[trigger] g.ensures((&k, &w), res) && res.reduced() == y;
                assert(keyed.gives(k, w, res));
                let x = choose|x: SetTransmuteResult<V, R>| #[trigger]
                    right_op.gives_entry(k, w, x) && res.new_entry() == keyed_entry(k, x) && (right_op is Generic ==> res.reduced()
                        == x.reduced());
                if let SetTransmute::Generic(f) = right_op {
                    assert(f.ensures((&k, &w), x));
                }
            },
            MapTransmute::Removed(x2) => {
                if let SetTransmute::Removed(x1) = right_op {
                    assert(cloned(x1, x2));
                    assert(cloned(x2, y));
                }
            },
        }
    }
    assert forall|y: R| #[trigger] transmute_others_ok(keyed)(y) implies transfuted_others(left_op, right_op)(y) by {
    }
    lemma_fits_weaken(
        t,
        reduce_op,
        lookup_keys(rl),
        lookup_keys(no_lookup::<K, V>()).union(lookup_keys(rl)),
        transmute_entries_ok(keyed, rl),
        pair_entries_ok(pred, no_lookup::<K, V>(), rl),
        transmute_others_ok(keyed),
        transfuted_others(left_op, right_op),
    );
    assert(t.combines(reduce_op));
}

impl<K: Key, V> MNode<K, V> {
    /// `transform_with_transfuted` at `depth` position by position: the children
    /// of both sides at a position are run on together, a left child alone by
    /// `left_op`, a right child alone by `keyed`, and the children left are gathered.
    #[verifier::rlimit(40)]
    fn transfuted_children<
        M: HasherBv<u64, K>,
        W,
        R: Clone + Default,
        RO: Fn(&R, &R) -> R,
        B: Fn(&K, &V, &K, &W) -> MapTransformResult<V, R>,
        LF: Fn(&K, &V) -> MapTransformResult<V, R>,
        RF: Fn(&K, &W) -> SetTransmuteResult<V, R>,
        G: Fn(&K, &W) -> MapTransmuteResult<K, V, R>,
    >(
        &self,
        right: &MNode<K, W>,
        reduce_op: &RO,
        both_op: &MapTransform<R, B>,
        left_op: &MapTransform<R, LF>,
        right_op: &SetTransmute<R, RF>,
        keyed: &MapTransmute<R, G>,
        depth: usize,
    ) -> (res: TransformResult<K, V, R>)
        requires
            self.wf::<M>(depth as nat),
            right.wf::<M>(depth as nat),
            depth as nat <= max_depth(),
            paths_agree::<K, V, W, M>(*self, *right, depth as nat),
            keys_below::<K, V, W, M>(*self, *right, depth as nat).len() <= usize::MAX,
            transfuted_accepts_below::<K, V, W, R, B, LF, RF, M>(*both_op, *left_op, *right_op, *self, *right, depth as nat),
            reduces_all(*reduce_op),
            keyed_by(*keyed, *right_op),
        ensures
            res.node_after(*self) matches Some(n) ==> n.wf::<M>(depth as nat),
            transfuted_node::<K, V, W, R, B, LF, RF, M>(
                *both_op,
                *left_op,
                *right_op,
                *self,
                *right,
                res.node_after(*self),
                depth as nat,
            ),
            pair_reduced_at(
                *reduce_op,
                transfuted_pred(*both_op, *left_op, *right_op),
                transfuted_others(*left_op, *right_op),
                node_lookup::<K, V, M>(*self, depth as nat),
                node_lookup::<K, W, M>(*right, depth as nat),
                res.reduced(),
            ),
        decreases 13 - depth, 0nat,
    {
        let ghost d = depth as nat;
        let ghost lc = self.children_at::<M>(d);
        let ghost rc = right.children_at::<M>(d);
        let ghost all = keys_below::<K, V, W, M>(*self, *right, d);
        proof {
            self.lemma_children_at::<M>(d);
            right.lemma_children_at::<M>(d);
            self.lemma_size_view::<M>(d);
            right.lemma_size_view::<M>(d);
        }
        let lchunk: usize = match self.flat_key::<M>() {
            Some(a) => {
                let h = M::hash(a);
                proof {
                    crate::flag::lemma_hash_chunk_range(h, d);
                }
                ((h >> ((5 * depth) as u64)) & 31u64) as usize
            },
            None => 32,
        };
        let rchunk: usize = match right.flat_key::<M>() {
            Some(b) => {
                let h = M::hash(b);
                proof {
                    crate::flag::lemma_hash_chunk_range(h, d);
                }
                ((h >> ((5 * depth) as u64)) & 31u64) as usize
            },
            None => 32,
        };
        let mut size: usize = 0;
        let mut bits_t: u32 = u32::zero_word();
        let mut values_t: Vec<MNode<K, V>> = Vec::new();
        let mut reduced: R = R::default();
        let mut unchanged_l = true;
        let ghost mut newc: Map<int, MNode<K, V>> = Map::empty();
        let ghost mut keys: Set<K> = Set::empty();
        let ghost pl = node_lookup::<K, V, M>(*self, d);
        let ghost pr = node_lookup::<K, W, M>(*right, d);
        let ghost jpred = transfuted_pred(*both_op, *left_op, *right_op);
        let ghost jok = pair_entries_ok(jpred, pl, pr);
        let ghost jot = transfuted_others(*left_op, *right_op);
        let ghost mut red_t: Reduction<K, R> = Reduction::Other(reduced);
        proof {
            lemma_count_zero(bits_t.bit_seq());
            lemma_fits_other(reduced, *reduce_op, jok, jot);
            assert(joint_keys_before::<K, V, W, M>(*self, *right, d, 0) =~= Set::<K>::empty()) by {
                assert forall|k: K| !joint_keys_before::<K, V, W, M>(*self, *right, d, 0).contains(k) by {
                    lemma_hash_chunk_range(M::hash_of(k), d);
                }
            }
        }
        let mut index: usize = 0;
        while index < 32
            invariant
                index <= 32,
                d == depth as nat,
                d <= max_depth(),
                lc == self.children_at::<M>(d),
                rc == right.children_at::<M>(d),
                all == keys_below::<K, V, W, M>(*self, *right, d),
                all.finite(),
                all.len() <= usize::MAX,
                self.wf::<M>(d),
                right.wf::<M>(d),
                paths_agree::<K, V, W, M>(*self, *right, d),
                transfuted_accepts_below::<K, V, W, R, B, LF, RF, M>(*both_op, *left_op, *right_op, *self, *right, d),
                reduces_all(*reduce_op),
                keyed_by(*keyed, *right_op),
                !(self is C) ==> lchunk == hash_chunk(self.flat_hash::<M>(), d),
                !(right is C) ==> rchunk == hash_chunk(right.flat_hash::<M>(), d),
                forall|k: K| #[trigger] self.lookup::<M>(k, d) == child_lookup::<K, V, M>(lc, k, d),
                forall|k: K| #[trigger] right.lookup::<M>(k, d) == child_lookup::<K, W, M>(rc, k, d),
                forall|p: int| #[trigger]
                    lc.contains_key(p) ==> {
                        &&& 0 <= p < 32
                        &&& lc[p].wf::<M>(d + 1)
                        &&& forall|k: K| #[trigger] lc[p].lookup::<M>(k, d + 1) is Some ==> hash_chunk(M::hash_of(k), d) == p
                    },
                forall|p: int| #[trigger]
                    rc.contains_key(p) ==> {
                        &&& 0 <= p < 32
                        &&& rc[p].wf::<M>(d + 1)
                        &&& forall|k: K| #[trigger] rc[p].lookup::<M>(k, d + 1) is Some ==> hash_chunk(M::hash_of(k), d) == p
                    },
                bits_t.bit_seq().len() == 32,
                forall|p: int| 0 <= p < 32 ==> #[trigger] bits_t.bit_seq()[p] == newc.contains_key(p),
                forall|p: int|
                    #[trigger] newc.contains_key(p) ==> {
                        &&& 0 <= p < index
                        &&& newc[p].wf::<M>(d + 1)
                        &&& values_t@[rank(bits_t.bit_seq(), p) as int] == newc[p]
                        &&& forall|k: K| #[trigger]
                            newc[p].lookup::<M>(k, d + 1) is Some ==> hash_chunk(M::hash_of(k), d) == p
                    },
                values_t@.len() == count_set(bits_t.bit_seq()),
                forall|k: K|
                    #![trigger self.lookup::<M>(k, d)]
                    #![trigger child_lookup::<K, V, M>(newc, k, d)]
                    hash_chunk(M::hash_of(k), d) < index ==> transform_with_transfuted_entry(
                        *both_op,
                        *left_op,
                        *right_op,
                        k,
                        self.lookup::<M>(k, d),
                        right.lookup::<M>(k, d),
                        child_lookup::<K, V, M>(newc, k, d),
                    ),
                unchanged_l ==> forall|k: K|
                    #![trigger self.lookup::<M>(k, d)]
                    hash_chunk(M::hash_of(k), d) < index ==> transform_with_transfuted_entry(
                        *both_op,
                        *left_op,
                        *right_op,
                        k,
                        self.lookup::<M>(k, d),
                        right.lookup::<M>(k, d),
                        self.lookup::<M>(k, d),
                    ),
                keys.finite(),
                size == keys.len(),
                forall|k: K| #[trigger] keys.contains(k) <==> child_lookup::<K, V, M>(newc, k, d) is Some,
                keys.subset_of(all),
                pl == node_lookup::<K, V, M>(*self, d),
                pr == node_lookup::<K, W, M>(*right, d),
                jpred == transfuted_pred(*both_op, *left_op, *right_op),
                jok == pair_entries_ok(jpred, pl, pr),
                jot == transfuted_others(*left_op, *right_op),
                red_t.value() == reduced,
                reduction_fits(red_t, *reduce_op, joint_keys_before::<K, V, W, M>(*self, *right, d, index as int), jok, jot),
            decreases 32 - index,
        {
            let ghost pre_newc = newc;
            let ghost pre_keys = keys;
            let ghost pre_bits = bits_t.bit_seq();
            let ghost p = index as int;
            let lchild: Option<&MNode<K, V>> = match self {
                MNode::C(c) => match c.nodes.at_index(index) {
                    Ok(n) => Some(n),
                    Err(_) => None,
                },
                _ => if index == lchunk {
                    Some(self)
                } else {
                    None
                },
            };
            let rchild: Option<&MNode<K, W>> = match right {
                MNode::C(c) => match c.nodes.at_index(index) {
                    Ok(n) => Some(n),
                    Err(_) => None,
                },
                _ => if index == rchunk {
                    Some(right)
                } else {
                    None
                },
            };
            proof {
                assert(lchild is Some <==> lc.contains_key(p));
                assert(lchild matches Some(n) ==> *n == lc[p]);
                assert(rchild is Some <==> rc.contains_key(p));
                assert(rchild matches Some(n) ==> *n == rc[p]);
                assert forall|k: K| hash_chunk(M::hash_of(k), d) == p implies #[trigger] self.lookup::<M>(k, d)
                    == lookup_in::<K, V, M>(lc.get(p), k, d + 1) && right.lookup::<M>(k, d) == lookup_in::<K, W, M>(
                    rc.get(p),
                    k,
                    d + 1,
                ) by {
                }
            }
            let ghost clk = |k: K| lookup_in::<K, V, M>(lc.get(p), k, d + 1);
            let ghost crk = |k: K| lookup_in::<K, W, M>(rc.get(p), k, d + 1);
            let jr: Option<TransformResult<K, V, R>> = match lchild {
                Some(ln) => match rchild {
                    Some(rn) => {
                        proof {
                            self.lemma_transfuted_children_step::<M, W, R, B, LF, RF>(*right, *both_op, *left_op, *right_op, d, p);
                        }
                        let jt = ln.transform_with_transfuted::<M, W, R, RO, B, LF, RF, G>(
                            rn,
                            reduce_op,
                            both_op,
                            left_op,
                            right_op,
                            keyed,
                            depth + 1,
                        );
                        proof {
                            assert(node_lookup::<K, V, M>(*ln, d + 1) =~= clk);
                            assert(node_lookup::<K, W, M>(*rn, d + 1) =~= crk);
                        }
                        Some(jt)
                    },
                    None => {
                        proof {
                            assert forall|k: K| #[trigger] ln.lookup::<M>(k, d + 1) is Some implies left_op.accepts(
                                k,
                                ln.lookup::<M>(k, d + 1)->Some_0,
                            ) by {
                                assert(self.lookup::<M>(k, d) == ln.lookup::<M>(k, d + 1));
                                assert(right.lookup::<M>(k, d) is None);
                            }
                        }
                        let t = ln.transform::<M, R, RO, LF>(reduce_op, left_op, depth + 1);
                        proof {
                            Self::lemma_left_side_transfuted::<M, W, R, B, LF, RF>(
                                *both_op,
                                *left_op,
                                *right_op,
                                *ln,
                                t.node_after(*ln),
                                d + 1,
                            );
                            lemma_transfuted_reduced_left::<K, V, W, R, RO, B, LF, RF, M>(
                                *reduce_op,
                                *both_op,
                                *left_op,
                                *right_op,
                                *ln,
                                d + 1,
                                t.reduced(),
                            );
                            assert(node_lookup::<K, V, M>(*ln, d + 1) =~= clk);
                            assert(no_lookup::<K, W>() =~= crk);
                        }
                        Some(t)
                    },
                },
                None => match rchild {
                    Some(rn) => {
                        proof {
                            assert forall|k: K| #[trigger] rn.lookup::<M>(k, d + 1) is Some implies right_op.accepts_entry(
                                k,
                                rn.lookup::<M>(k, d + 1)->Some_0,
                            ) by {
                                assert(right.lookup::<M>(k, d) == rn.lookup::<M>(k, d + 1));
                                assert(self.lookup::<M>(k, d) is None);
                            }
                            lemma_keyed_fits::<K, W, V, R, RF, G, M>(*keyed, *right_op, node_lookup::<K, W, M>(*rn, d + 1));
                        }
                        let (t, outs) = rn.transmute::<K, V, R, RO, G, M>(reduce_op, keyed, depth + 1);
                        proof {
                            lemma_keyed_lookups::<K, W, V, R, RF, G>(
                                *keyed,
                                *right_op,
                                node_lookup::<K, W, M>(*rn, d + 1),
                                opt_lookup::<K, V, M>(t.node(), d + 1),
                                outs@,
                            );
                            assert forall|k: K| #![trigger lookup_in::<K, V, M>(t.node(), k, d + 1)]
                                set_transmuted_entry(*right_op, k, rn.lookup::<M>(k, d + 1), lookup_in::<K, V, M>(t.node(), k, d + 1)) by {
                                assert(opt_lookup::<K, V, M>(t.node(), d + 1)(k) == lookup_in::<K, V, M>(t.node(), k, d + 1));
                                assert(node_lookup::<K, W, M>(*rn, d + 1)(k) == rn.lookup::<M>(k, d + 1));
                            }
                            lemma_transfuted_reduced_right::<K, V, W, R, RO, B, LF, RF, G>(
                                *reduce_op,
                                *both_op,
                                *left_op,
                                *right_op,
                                *keyed,
                                node_lookup::<K, W, M>(*rn, d + 1),
                                t.reduced(),
                            );
                            assert(node_lookup::<K, W, M>(*rn, d + 1) =~= crk);
                            assert(no_lookup::<K, V>() =~= clk);
                        }
                        Some(match t {
                            TransmuteResult::C(c, r) => TransformResult::C(c, r),
                            TransmuteResult::L(l, r) => TransformResult::L(l, r),
                            TransmuteResult::S(s, r) => TransformResult::S(s, r),
                            TransmuteResult::Removed(r) => TransformResult::Removed(r),
                        })
                    },
                    None => None,
                },
            };
            let ghost lnode = match lc.get(p) {
                Some(n) => n,
                None => *self,
            };
            let ghost jnew = opt_node_after(jr, lnode);
            proof {
                assert(jr matches Some(j) ==> j is Unchanged ==> lc.contains_key(p));
                assert(jr is None ==> !lc.contains_key(p) && !rc.contains_key(p));
                assert(jnew matches Some(n) ==> n.wf::<M>(d + 1));
                assert forall|k: K| #![trigger lookup_in::<K, V, M>(jnew, k, d + 1)]
                    transform_with_transfuted_entry(
                        *both_op,
                        *left_op,
                        *right_op,
                        k,
                        lookup_in::<K, V, M>(lc.get(p), k, d + 1),
                        lookup_in::<K, W, M>(rc.get(p), k, d + 1),
                        lookup_in::<K, V, M>(jnew, k, d + 1),
                    ) by {
                    if jr is Some {
                        assert(lookup_in::<K, V, M>(lc.get(p), k, d + 1) == lnode.lookup::<M>(k, d + 1) || !lc.contains_key(p));
                    }
                }
            }
            let (new_child, red, keeps_l): (Option<MNode<K, V>>, Option<R>, bool) = match jr {
                None => (None, None, true),
                Some(TransformResult::Unchanged(r)) => (Some(lchild.unwrap().clone()), Some(r), true),
                Some(TransformResult::C(c, r)) => (Some(MNode::C(c)), Some(r), false),
                Some(TransformResult::L(l, r)) => (Some(MNode::L(l)), Some(r), false),
                Some(TransformResult::S(s, r)) => (Some(MNode::S(s)), Some(r), false),
                Some(TransformResult::Removed(r)) => (None, Some(r), lchild.is_none()),
            };
            proof {
                assert(new_child == jnew);
            }
            if !keeps_l {
                unchanged_l = false;
            }
            let ghost at_p = Set::new(|k: K| hash_chunk(M::hash_of(k), d) == p);
            proof {
                assert forall|k: K| #![trigger clk(k)] #![trigger crk(k)] (clk(k) is Some || crk(k) is Some) implies at_p.contains(k) by {
                    if clk(k) is Some {
                        assert(lc[p].lookup::<M>(k, d + 1) is Some);
                    } else {
                        assert(rc[p].lookup::<M>(k, d + 1) is Some);
                    }
                }
                assert(joint_keys_before::<K, V, W, M>(*self, *right, d, p).disjoint(at_p));
                assert(joint_keys_before::<K, V, W, M>(*self, *right, d, p).union(lookup_keys(clk).union(lookup_keys(crk)))
                    =~= joint_keys_before::<K, V, W, M>(*self, *right, d, p + 1)) by {
                    assert forall|k: K| #[trigger] joint_keys_before::<K, V, W, M>(*self, *right, d, p + 1).contains(k)
                        implies joint_keys_before::<K, V, W, M>(*self, *right, d, p).union(lookup_keys(clk).union(lookup_keys(crk))).contains(k) by {
                        if hash_chunk(M::hash_of(k), d) == p {
                            assert(self.lookup::<M>(k, d) == clk(k));
                            assert(right.lookup::<M>(k, d) == crk(k));
                        }
                    }
                }
            }
            match red {
                Some(r) => {
                    reduced = reduce_op(&reduced, &r);
                    proof {
                        assert(jr matches Some(j) && j.reduced() == r);
                        red_t = lemma_pair_reduced_step(
                            *reduce_op,
                            jpred,
                            jot,
                            pl,
                            pr,
                            clk,
                            crk,
                            at_p,
                            joint_keys_before::<K, V, W, M>(*self, *right, d, p),
                            red_t,
                            r,
                            reduced,
                        );
                    }
                },
                None => {
                    proof {
                        assert(lookup_keys(clk).union(lookup_keys(crk)) =~= Set::<K>::empty());
                        assert(joint_keys_before::<K, V, W, M>(*self, *right, d, p + 1) =~= joint_keys_before::<K, V, W, M>(
                            *self,
                            *right,
                            d,
                            p,
                        ));
                    }
                },
            }
            match new_child {
                Some(n) => {
                    let ghost nd = n.view_at::<M>(d + 1).dom();
                    proof {
                        n.lemma_size_view::<M>(d + 1);
                        assert forall|k: K| #[trigger] n.lookup::<M>(k, d + 1) is Some implies hash_chunk(
                            M::hash_of(k),
                            d,
                        ) == p && all.contains(k) by {
                            assert(lookup_in::<K, V, M>(jnew, k, d + 1) is Some);
                            if lookup_in::<K, V, M>(lc.get(p), k, d + 1) is Some {
                                assert(lc[p].lookup::<M>(k, d + 1) is Some);
                                assert(self.lookup::<M>(k, d) is Some);
                                assert(self.view_at::<M>(d).dom().contains(k));
                            } else {
                                assert(rc[p].lookup::<M>(k, d + 1) is Some);
                                assert(right.lookup::<M>(k, d) is Some);
                                assert(right.view_at::<M>(d).dom().contains(k));
                            }
                        }
                        assert(pre_keys.disjoint(nd)) by {
                            assert forall|k: K| pre_keys.contains(k) implies !nd.contains(k) by {
                                assert(child_lookup::<K, V, M>(pre_newc, k, d) is Some);
                            }
                        }
                        vstd::set_lib::lemma_set_disjoint_lens(pre_keys, nd);
                        assert(pre_keys.union(nd).subset_of(all));
                        vstd::set_lib::lemma_len_subset(pre_keys.union(nd), all);
                    }
                    size = size + n.size();
                    let bit = u32::nth_bit(index).unwrap();
                    proof {
                        lemma_only_bit(32, p);
                        assert(!pre_bits[p]);
                    }
                    bits_t = bits_t.bit_insert(bit).unwrap();
                    values_t.push(n);
                    proof {
                        newc = pre_newc.insert(p, n);
                        keys = pre_keys.union(nd);
                        lemma_count_set_bit(pre_bits, p, p);
                        lemma_count_split(pre_bits, p);
                        lemma_count_zero(pre_bits.skip(p));
                        assert(bits_t.bit_seq() == pre_bits.update(p, true));
                        assert forall|q: int| #[trigger] newc.contains_key(q) implies values_t@[rank(
                            bits_t.bit_seq(),
                            q,
                        ) as int] == newc[q] by {
                            lemma_count_set_bit(pre_bits, p, q);
                            if q != p {
                                lemma_rank_lt_count(pre_bits, q);
                            }
                        }
                        assert forall|k: K| #[trigger] keys.contains(k) <==> child_lookup::<K, V, M>(
                            newc,
                            k,
                            d,
                        ) is Some by {
                            if hash_chunk(M::hash_of(k), d) == p {
                                if pre_keys.contains(k) {
                                    assert(child_lookup::<K, V, M>(pre_newc, k, d) is Some);
                                }
                            } else {
                                assert(child_lookup::<K, V, M>(newc, k, d) == child_lookup::<K, V, M>(pre_newc, k, d));
                            }
                        }
                    }
                },
                None => {},
            }
            proof {
                assert forall|k: K| hash_chunk(M::hash_of(k), d) < index + 1 implies transform_with_transfuted_entry(
                    *both_op,
                    *left_op,
                    *right_op,
                    k,
                    #[trigger] self.lookup::<M>(k, d),
                    right.lookup::<M>(k, d),
                    child_lookup::<K, V, M>(newc, k, d),
                ) by {
                    if hash_chunk(M::hash_of(k), d) == p {
                        assert(lookup_in::<K, V, M>(jnew, k, d + 1) == child_lookup::<K, V, M>(newc, k, d));
                    } else {
                        assert(child_lookup::<K, V, M>(newc, k, d) == child_lookup::<K, V, M>(pre_newc, k, d));
                    }
                }
                if unchanged_l {
                    assert forall|k: K| hash_chunk(M::hash_of(k), d) < index + 1 implies transform_with_transfuted_entry(
                        *both_op,
                        *left_op,
                        *right_op,
                        k,
                        #[trigger] self.lookup::<M>(k, d),
                        right.lookup::<M>(k, d),
                        self.lookup::<M>(k, d),
                    ) by {
                        if hash_chunk(M::hash_of(k), d) == p {
                            if jr is Some {
                                if lc.contains_key(p) {
                                    assert(jnew == Some(lnode));
                                } else {
                                    assert(jnew is None);
                                }
                                assert(lookup_in::<K, V, M>(jnew, k, d + 1) == self.lookup::<M>(k, d));
                            }
                        }
                    }
                }
            }
            index = index + 1;
        }
        proof {
            assert forall|k: K| #[trigger] self.lookup::<M>(k, d) == self.lookup::<M>(k, d) implies hash_chunk(
                M::hash_of(k),
                d,
            ) < 32 by {
                lemma_hash_chunk_range(M::hash_of(k), d);
            }
            assert forall|k: K| #[trigger] right.lookup::<M>(k, d) == right.lookup::<M>(k, d) implies hash_chunk(
                M::hash_of(k),
                d,
            ) < 32 by {
                lemma_hash_chunk_range(M::hash_of(k), d);
            }
            assert(joint_keys_before::<K, V, W, M>(*self, *right, d, 32) =~= lookup_keys(pl).union(lookup_keys(pr))) by {
                assert forall|k: K| #[trigger] lookup_keys(pl).union(lookup_keys(pr)).contains(k) implies joint_keys_before::<
                    K,
                    V,
                    W,
                    M,
                >(*self, *right, d, 32).contains(k) by {
                    lemma_hash_chunk_range(M::hash_of(k), d);
                }
            }
            assert(red_t.combines(*reduce_op));
        }
        if unchanged_l {
            return TransformResult::Unchanged(reduced);
        }
        if values_t.len() == 0 {
            proof {
                lemma_count_zero(bits_t.bit_seq());
                assert forall|k: K| #[trigger] child_lookup::<K, V, M>(newc, k, d) is None by {
                    lemma_hash_chunk_range(M::hash_of(k), d);
                    let q = hash_chunk(M::hash_of(k), d);
                    if newc.contains_key(q) {
                        assert(bits_t.bit_seq()[q]);
                    }
                }
            }
            return TransformResult::Removed(reduced);
        }
        if values_t.len() == 1 {
            let ghost q = crate::bitseq::lemma_rank_onto(bits_t.bit_seq(), 0);
            proof {
                assert(newc.contains_key(q));
                assert forall|q2: int| #[trigger] newc.contains_key(q2) implies q2 == q by {
                    if q2 != q {
                        crate::bitseq::lemma_rank_injective(bits_t.bit_seq(), q, q2);
                        lemma_rank_lt_count(bits_t.bit_seq(), q2);
                    }
                }
            }
            match &values_t[0] {
                MNode::C(_) => {},
                MNode::L(l) => {
                    proof {
                        assert(MNode::L(*l) == newc[q]);
                        MNode::lemma_sole_child::<M>(newc, q, d);
                    }
                    return TransformResult::L(l.clone(), reduced);
                },
                MNode::S(s) => {
                    proof {
                        assert(MNode::S(*s) == newc[q]);
                        MNode::lemma_sole_child::<M>(newc, q, d);
                    }
                    return TransformResult::S(s.clone(), reduced);
                },
            }
        }
        match new_bit_indexed_array(bits_t, values_t, size) {
            Ok(arr) => {
                let cn = CNode::new(arr);
                proof {
                    assert(cn.children() =~= newc);
                    let n = MNode::C(cn);
                    assert forall|k: K| #[trigger] n.lookup::<M>(k, d) == child_lookup::<K, V, M>(newc, k, d) by {
                    }
                    assert(n.view_at::<M>(d).dom() =~= keys);
                }
                TransformResult::C(cn, reduced)
            },
            Err(_) => {
                proof {
                    assert(false);
                }
                TransformResult::Removed(reduced)
            },
        }
    }
}

impl<K, V> MNode<K, V> {
    /// The children of two nodes at one position may be run on together: they
    /// are well formed, lie on one path, hold fewer keys than their parents
    /// together, and the operations may run on their entries.
    proof fn lemma_transfuted_children_step<
        M: HasherBv<u64, K>,
        W,
        R,
        B: Fn(&K, &V, &K, &W) -> MapTransformResult<V, R>,
        LF: Fn(&K, &V) -> MapTransformResult<V, R>,
        RF: Fn(&K, &W) -> SetTransmuteResult<V, R>,
    >(
        self,
        right: MNode<K, W>,
        both_op: MapTransform<R, B>,
        left_op: MapTransform<R, LF>,
        right_op: SetTransmute<R, RF>,
        d: nat,
        p: int,
    )
        requires
            self.wf::<M>(d),
            right.wf::<M>(d),
            d <= max_depth(),
            paths_agree::<K, V, W, M>(self, right, d),
            keys_below::<K, V, W, M>(self, right, d).finite(),
            keys_below::<K, V, W, M>(self, right, d).len() <= usize::MAX,
            transfuted_accepts_below::<K, V, W, R, B, LF, RF, M>(both_op, left_op, right_op, self, right, d),
            self.children_at::<M>(d).contains_key(p),
            right.children_at::<M>(d).contains_key(p),
        ensures
            self.children_at::<M>(d)[p].wf::<M>(d + 1),
            right.children_at::<M>(d)[p].wf::<M>(d + 1),
            paths_agree::<K, V, W, M>(self.children_at::<M>(d)[p], right.children_at::<M>(d)[p], d + 1),
            keys_below::<K, V, W, M>(self.children_at::<M>(d)[p], right.children_at::<M>(d)[p], d + 1).len() <= usize::MAX,
            transfuted_accepts_below::<K, V, W, R, B, LF, RF, M>(
                both_op,
                left_op,
                right_op,
                self.children_at::<M>(d)[p],
                right.children_at::<M>(d)[p],
                d + 1,
            ),
    {
        let ln = self.children_at::<M>(d)[p];
        let rn = right.children_at::<M>(d)[p];
        self.lemma_children_at::<M>(d);
        right.lemma_children_at::<M>(d);
        ln.lemma_size_view::<M>(d + 1);
        rn.lemma_size_view::<M>(d + 1);
        assert forall|k1: K, k2: K|
            #![trigger ln.lookup::<M>(k1, d + 1), rn.lookup::<M>(k2, d + 1)]
            ln.lookup::<M>(k1, d + 1) is Some && rn.lookup::<M>(k2, d + 1) is Some implies agrees_below(
                M::hash_of(k1),
                M::hash_of(k2),
                d + 1,
            ) by {
            assert(self.lookup::<M>(k1, d) == child_lookup::<K, V, M>(self.children_at::<M>(d), k1, d));
            assert(right.lookup::<M>(k2, d) == child_lookup::<K, W, M>(right.children_at::<M>(d), k2, d));
            assert(agrees_below(M::hash_of(k1), M::hash_of(k2), d));
            assert forall|j: nat| j < d + 1 implies #[trigger] hash_chunk(M::hash_of(k1), j) == hash_chunk(
                M::hash_of(k2),
                j,
            ) by {
                if j < d {
                    assert(hash_chunk(M::hash_of(k1), j) == hash_chunk(M::hash_of(k2), j));
                }
            }
        }
        let cu = keys_below::<K, V, W, M>(ln, rn, d + 1);
        assert(cu.subset_of(keys_below::<K, V, W, M>(self, right, d))) by {
            assert forall|k: K| cu.contains(k) implies #[trigger] keys_below::<K, V, W, M>(self, right, d).contains(k) by {
                if ln.lookup::<M>(k, d + 1) is Some {
                    assert(self.lookup::<M>(k, d) == child_lookup::<K, V, M>(self.children_at::<M>(d), k, d));
                } else {
                    assert(right.lookup::<M>(k, d) == child_lookup::<K, W, M>(right.children_at::<M>(d), k, d));
                }
            }
        }
        vstd::set_lib::lemma_len_subset(cu, keys_below::<K, V, W, M>(self, right, d));
        assert forall|k: K|
            #![trigger ln.lookup::<M>(k, d + 1)]
            #![trigger rn.lookup::<M>(k, d + 1)]
            transform_with_transfuted_accepts_entry(both_op, left_op, right_op, k, ln.lookup::<M>(k, d + 1), rn.lookup::<M>(k, d + 1)) by {
            if ln.lookup::<M>(k, d + 1) is Some || rn.lookup::<M>(k, d + 1) is Some {
                assert(hash_chunk(M::hash_of(k), d) == p);
                assert(self.lookup::<M>(k, d) == child_lookup::<K, V, M>(self.children_at::<M>(d), k, d));
                assert(right.lookup::<M>(k, d) == child_lookup::<K, W, M>(right.children_at::<M>(d), k, d));
            }
        }
    }

    /// A transformation of the entries of the left side alone is what
    /// `transform_with_transfuted` makes of them with nothing on the right.
    proof fn lemma_left_side_transfuted<
        M: HasherBv<u64, K>,
        W,
        R,
        B: Fn(&K, &V, &K, &W) -> MapTransformResult<V, R>,
        LF: Fn(&K, &V) -> MapTransformResult<V, R>,
        RF: Fn(&K, &W) -> SetTransmuteResult<V, R>,
    >(
        both_op: MapTransform<R, B>,
        left_op: MapTransform<R, LF>,
        right_op: SetTransmute<R, RF>,
        n: MNode<K, V>,
        new: Option<MNode<K, V>>,
        d: nat,
    )
        requires
            transformed_node::<K, V, R, LF, M>(left_op, n, new, d),
        ensures
            forall|k: K| #![trigger lookup_in::<K, V, M>(new, k, d)]
                transform_with_transfuted_entry(both_op, left_op, right_op, k, n.lookup::<M>(k, d), None::<W>, lookup_in::<K, V, M>(new, k, d)),
    {
        assert forall|k: K| #![trigger lookup_in::<K, V, M>(new, k, d)]
            transform_with_transfuted_entry(both_op, left_op, right_op, k, n.lookup::<M>(k, d), None::<W>, lookup_in::<K, V, M>(new, k, d)) by {
            assert(transformed_entry(left_op, k, n.lookup::<M>(k, d), lookup_in::<K, V, M>(new, k, d)));
        }
    }
}

// ----------------------------------------------------------------------------
// Joint transmutation
// ----------------------------------------------------------------------------

/// Each operation of `transmute_with_transmuted` may be run on the entries that
/// the lookups `ll` and `rl` find and that it is run on.
pub open spec fn joint_transmute_accepts<K, V, W, S, X, R, B, LF, RF>(
    both_op: MapTransmute<R, B>,
    left_op: MapTransmute<R, LF>,
    right_op: MapTransmute<R, RF>,
    ll: spec_fn(K) -> Option<V>,
    rl: spec_fn(K) -> Option<W>,
) -> bool where
    B: Fn(&K, &V, &K, &W) -> MapTransmuteResult<S, X, R>,
    LF: Fn(&K, &V) -> MapTransmuteResult<S, X, R>,
    RF: Fn(&K, &W) -> MapTransmuteResult<S, X, R>,
 {
    forall|k: K|
        #![trigger ll(k)]
        #![trigger rl(k)]
        joint_transmute_accepts_entry::<K, V, W, S, X, R, B, LF, RF>(both_op, left_op, right_op, k, ll(k), rl(k))
}

/// Every result that the operations of `transmute_with_transmuted` may give for
/// the entries that `ll` and `rl` find keeps the key's hash, and the results for
/// distinct keys make distinct keys.
pub open spec fn joint_transmute_fits<K, V, W, S, X, R, B, LF, RF, M>(
    both_op: MapTransmute<R, B>,
    left_op: MapTransmute<R, LF>,
    right_op: MapTransmute<R, RF>,
    ll: spec_fn(K) -> Option<V>,
    rl: spec_fn(K) -> Option<W>,
) -> bool where
    B: Fn(&K, &V, &K, &W) -> MapTransmuteResult<S, X, R>,
    LF: Fn(&K, &V) -> MapTransmuteResult<S, X, R>,
    RF: Fn(&K, &W) -> MapTransmuteResult<S, X, R>,
    M: HasherBv<u64, K> + HasherBv<u64, S>,
 {
    &&& forall|k: K, r: MapTransmuteResult<S, X, R>|
        #![trigger joint_transmute_gives(both_op, left_op, right_op, k, ll(k), rl(k), r)]
        joint_transmute_gives(both_op, left_op, right_op, k, ll(k), rl(k), r) && r.new_entry() is Some ==> <M as HasherBv<
            u64,
            S,
        >>::hash_of(r.new_entry()->Some_0.0) == <M as HasherBv<u64, K>>::hash_of(k)
    &&& forall|k1: K, k2: K, r1: MapTransmuteResult<S, X, R>, r2: MapTransmuteResult<S, X, R>|
        #![trigger joint_transmute_gives(both_op, left_op, right_op, k1, ll(k1), rl(k1), r1), joint_transmute_gives(both_op, left_op, right_op, k2, ll(k2), rl(k2), r2)]
        k1 != k2 && joint_transmute_gives(both_op, left_op, right_op, k1, ll(k1), rl(k1), r1) && joint_transmute_gives(
            both_op,
            left_op,
            right_op,
            k2,
            ll(k2),
            rl(k2),
            r2,
        ) && r1.new_entry() is Some && r2.new_entry() is Some ==> r1.new_entry()->Some_0.0 != r2.new_entry()->Some_0.0
}

/// The results `outs`, one for each key that `ll` or `rl` finds, are results
/// that the operations of `transmute_with_transmuted` may give for its entries,
/// and the entries of the new keys are what `nl` finds.
pub open spec fn joint_transmuted_lookups<K, V, W, S, X, R, B, LF, RF>(
    both_op: MapTransmute<R, B>,
    left_op: MapTransmute<R, LF>,
    right_op: MapTransmute<R, RF>,
    ll: spec_fn(K) -> Option<V>,
    rl: spec_fn(K) -> Option<W>,
    nl: spec_fn(S) -> Option<X>,
    outs: Map<K, MapTransmuteResult<S, X, R>>,
) -> bool where
    B: Fn(&K, &V, &K, &W) -> MapTransmuteResult<S, X, R>,
    LF: Fn(&K, &V) -> MapTransmuteResult<S, X, R>,
    RF: Fn(&K, &W) -> MapTransmuteResult<S, X, R>,
 {
    &&& forall|k: K| #[trigger] outs.dom().contains(k) <==> (ll(k) is Some || rl(k) is Some)
    &&& forall|k: K| #[trigger]
        outs.dom().contains(k) ==> joint_transmute_gives(both_op, left_op, right_op, k, ll(k), rl(k), outs[k])
    &&& forall|k: K| #[trigger]
        outs.dom().contains(k) && outs[k].new_entry() is Some ==> nl(outs[k].new_entry()->Some_0.0) == Some(
            outs[k].new_entry()->Some_0.1,
        )
    &&& forall|s: S| #[trigger]
        nl(s) is Some ==> exists|k: K| #[trigger]
            outs.dom().contains(k) && outs[k].new_entry() is Some && outs[k].new_entry()->Some_0.0 == s
}

/// One more result, for a key without one yet, keeps the list of new entries
/// `os` in step with the results: the new entry goes at the back, and it has a
/// key of its own.
proof fn lemma_push_outcome<K, V, W, S, X, R, B, LF, RF, M>(
    both_op: MapTransmute<R, B>,
    left_op: MapTransmute<R, LF>,
    right_op: MapTransmute<R, RF>,
    ll: spec_fn(K) -> Option<V>,
    rl: spec_fn(K) -> Option<W>,
    outs: Map<K, MapTransmuteResult<S, X, R>>,
    os: Seq<(S, X)>,
    os2: Seq<(S, X)>,
    key: K,
    o: MapTransmuteResult<S, X, R>,
) where
    B: Fn(&K, &V, &K, &W) -> MapTransmuteResult<S, X, R>,
    LF: Fn(&K, &V) -> MapTransmuteResult<S, X, R>,
    RF: Fn(&K, &W) -> MapTransmuteResult<S, X, R>,
    M: HasherBv<u64, K> + HasherBv<u64, S>,

    requires
        joint_transmute_fits::<K, V, W, S, X, R, B, LF, RF, M>(both_op, left_op, right_op, ll, rl),
        !outs.dom().contains(key),
        joint_transmute_gives(both_op, left_op, right_op, key, ll(key), rl(key), o),
        forall|k: K| #[trigger]
            outs.dom().contains(k) ==> joint_transmute_gives(both_op, left_op, right_op, k, ll(k), rl(k), outs[k]),
        outs.dom().finite(),
        os.len() <= outs.dom().len(),
        entries_keys(os).no_duplicates(),
        forall|k: K| #[trigger]
            outs.dom().contains(k) && outs[k].new_entry() is Some ==> entries_lookup(os, outs[k].new_entry()->Some_0.0)
                == Some(outs[k].new_entry()->Some_0.1),
        forall|s: S| #[trigger]
            entries_lookup(os, s) is Some ==> exists|k: K| #[trigger]
                outs.dom().contains(k) && outs[k].new_entry() is Some && outs[k].new_entry()->Some_0.0 == s,
        os2 == match o.new_entry() {
            Some(f) => os.push(f),
            None => os,
        },
    ensures
        outs.insert(key, o).dom().finite(),
        os2.len() <= outs.insert(key, o).dom().len(),
        entries_keys(os2).no_duplicates(),
        forall|k: K| #[trigger]
            outs.insert(key, o).dom().contains(k) ==> joint_transmute_gives(
                both_op,
                left_op,
                right_op,
                k,
                ll(k),
                rl(k),
                outs.insert(key, o)[k],
            ),
        forall|k: K| #[trigger]
            outs.insert(key, o).dom().contains(k) && outs.insert(key, o)[k].new_entry() is Some ==> entries_lookup(
                os2,
                outs.insert(key, o)[k].new_entry()->Some_0.0,
            ) == Some(outs.insert(key, o)[k].new_entry()->Some_0.1),
        forall|s: S| #[trigger]
            entries_lookup(os2, s) is Some ==> exists|k: K| #[trigger]
                outs.insert(key, o).dom().contains(k) && outs.insert(key, o)[k].new_entry() is Some && outs.insert(
                    key,
                    o,
                )[k].new_entry()->Some_0.0 == s,
{
    let outs2 = outs.insert(key, o);
    assert(outs2.dom() == outs.dom().insert(key));
    match o.new_entry() {
        Some(f) => {
            assert(!entries_keys(os).contains(f.0)) by {
                lemma_entries_lookup_some(os, f.0);
                if entries_lookup(os, f.0) is Some {
                    let k0 = choose|k0: K| #[trigger]
                        outs.dom().contains(k0) && outs[k0].new_entry() is Some && outs[k0].new_entry()->Some_0.0 == f.0;
                    assert(k0 != key);
                    assert(joint_transmute_gives(both_op, left_op, right_op, k0, ll(k0), rl(k0), outs[k0]));
                }
            }
            lemma_push_keys(os, f);
            assert forall|s: S| #[trigger] entries_lookup(os2, s) == if entries_lookup(os, s) is Some {
                entries_lookup(os, s)
            } else if f.0 == s {
                Some(f.1)
            } else {
                None
            } by {
                lemma_push_lookup(os, f, s);
            }
            assert forall|k: K| #[trigger] outs2.dom().contains(k) && outs2[k].new_entry() is Some implies entries_lookup(
                os2,
                outs2[k].new_entry()->Some_0.0,
            ) == Some(outs2[k].new_entry()->Some_0.1) by {
                if k != key {
                    assert(entries_lookup(os, outs[k].new_entry()->Some_0.0) == Some(outs[k].new_entry()->Some_0.1));
                } else {
                    lemma_entries_lookup_some(os, f.0);
                }
            }
            assert forall|s: S| #[trigger] entries_lookup(os2, s) is Some implies exists|k: K| #[trigger]
                outs2.dom().contains(k) && outs2[k].new_entry() is Some && outs2[k].new_entry()->Some_0.0 == s by {
                if entries_lookup(os, s) is Some {
                    let k0 = choose|k0: K| #[trigger]
                        outs.dom().contains(k0) && outs[k0].new_entry() is Some && outs[k0].new_entry()->Some_0.0 == s;
                    assert(outs2.dom().contains(k0) && outs2[k0] == outs[k0]);
                } else {
                    assert(outs2.dom().contains(key));
                }
            }
        },
        None => {
            assert forall|s: S| #[trigger] entries_lookup(os, s) is Some implies exists|k: K| #[trigger]
                outs2.dom().contains(k) && outs2[k].new_entry() is Some && outs2[k].new_entry()->Some_0.0 == s by {
                let k0 = choose|k0: K| #[trigger]
                    outs.dom().contains(k0) && outs[k0].new_entry() is Some && outs[k0].new_entry()->Some_0.0 == s;
                assert(outs2.dom().contains(k0) && outs2[k0] == outs[k0]);
            }
        },
    }
}

impl<K, V> MNode<K, V> {
    /// Two single-entry or list nodes of one hash, whose entries gave the results
    /// `outs` and the list of new entries `os`, are transmuted together into the
    /// node `t` of those entries, well formed and no larger than their keys.
    proof fn lemma_joint_transmute_flat_node<M, W, S, X, R, B, LF, RF>(
        self,
        right: MNode<K, W>,
        both_op: MapTransmute<R, B>,
        left_op: MapTransmute<R, LF>,
        right_op: MapTransmute<R, RF>,
        t: TransmuteResult<S, X, R>,
        os: Seq<(S, X)>,
        outs: Map<K, MapTransmuteResult<S, X, R>>,
        d: nat,
    ) where
        B: Fn(&K, &V, &K, &W) -> MapTransmuteResult<S, X, R>,
        LF: Fn(&K, &V) -> MapTransmuteResult<S, X, R>,
        RF: Fn(&K, &W) -> MapTransmuteResult<S, X, R>,
        M: HasherBv<u64, K> + HasherBv<u64, S>,

        requires
            self is S || self is L,
            right is S || right is L,
            self.wf::<M>(d),
            right.wf::<M>(d),
            self.flat_hash::<M>() == right.flat_hash::<M>(),
            joint_transmute_fits::<K, V, W, S, X, R, B, LF, RF, M>(
                both_op,
                left_op,
                right_op,
                node_lookup::<K, V, M>(self, d),
                node_lookup::<K, W, M>(right, d),
            ),
            !(t is C),
            match t.node() {
                Some(n) => {
                    &&& n is S || n is L
                    &&& n.flat_entries() == os
                    &&& n matches MNode::L(l) ==> l.sizes_ok()
                },
                None => os.len() == 0,
            },
            entries_keys(os).no_duplicates(),
            outs.dom().finite(),
            os.len() <= outs.dom().len(),
            forall|k: K| #[trigger]
                outs.dom().contains(k) <==> (node_lookup::<K, V, M>(self, d)(k) is Some || node_lookup::<K, W, M>(
                    right,
                    d,
                )(k) is Some),
            forall|k: K| #[trigger]
                outs.dom().contains(k) ==> joint_transmute_gives(
                    both_op,
                    left_op,
                    right_op,
                    k,
                    node_lookup::<K, V, M>(self, d)(k),
                    node_lookup::<K, W, M>(right, d)(k),
                    outs[k],
                ),
            forall|k: K| #[trigger]
                outs.dom().contains(k) && outs[k].new_entry() is Some ==> entries_lookup(os, outs[k].new_entry()->Some_0.0)
                    == Some(outs[k].new_entry()->Some_0.1),
            forall|s: S| #[trigger]
                entries_lookup(os, s) is Some ==> exists|k: K| #[trigger]
                    outs.dom().contains(k) && outs[k].new_entry() is Some && outs[k].new_entry()->Some_0.0 == s,
        ensures
            t.node() matches Some(n) ==> n.wf::<M>(d) && n.size_of() <= keys_below::<K, V, W, M>(self, right, d).len(),
            joint_transmuted_lookups(
                both_op,
                left_op,
                right_op,
                node_lookup::<K, V, M>(self, d),
                node_lookup::<K, W, M>(right, d),
                opt_lookup::<S, X, M>(t.node(), d),
                outs,
            ),
    {
        let ll = node_lookup::<K, V, M>(self, d);
        let rl = node_lookup::<K, W, M>(right, d);
        assert forall|s: S| #[trigger] opt_lookup::<S, X, M>(t.node(), d)(s) == entries_lookup(os, s) by {
            match t.node() {
                Some(n) => {
                    n.lemma_flat_lookup::<M>(s, d);
                },
                None => {
                    assert(os.len() == 0);
                },
            }
        }
        self.lemma_flat::<M>(d, d);
        right.lemma_flat::<M>(d, d);
        assert(outs.dom() =~= keys_below::<K, V, W, M>(self, right, d)) by {
            assert forall|k: K| #[trigger] outs.dom().contains(k) == keys_below::<K, V, W, M>(self, right, d).contains(k) by {
                assert(ll(k) == self.lookup::<M>(k, d));
                assert(rl(k) == right.lookup::<M>(k, d));
            }
        }
        assert forall|i: int| 0 <= i < os.len() implies #[trigger] <M as HasherBv<u64, S>>::hash_of(os[i].0)
            == self.flat_hash::<M>() by {
            assert(entries_keys(os)[i] == os[i].0);
            lemma_entries_lookup_some(os, os[i].0);
            let k = choose|k: K| #[trigger]
                outs.dom().contains(k) && outs[k].new_entry() is Some && outs[k].new_entry()->Some_0.0 == os[i].0;
            assert(joint_transmute_gives(both_op, left_op, right_op, k, ll(k), rl(k), outs[k]));
            if ll(k) is Some {
                assert(self.lookup::<M>(k, d) is Some);
            } else {
                assert(right.lookup::<M>(k, d) is Some);
            }
        }
        match t.node() {
            Some(MNode::L(l)) => {
                l.lemma_len();
                assert(<M as HasherBv<u64, S>>::hash_of(os[0].0) == self.flat_hash::<M>());
            },
            _ => {},
        }
    }
}

impl<K: Key, V> MNode<K, V> {
    /// `transmute_with_transmuted` on two single-entry or list nodes whose keys
    /// all have one hash, entry by entry: the left entries first, each with its
    /// right partner if there is one, then the right entries without a partner.
    pub fn joint_transmute_flat<
        M,
        W,
        S,
        X,
        R: Clone + Default,
        RO: Fn(&R, &R) -> R,
        B: Fn(&K, &V, &K, &W) -> MapTransmuteResult<S, X, R>,
        LF: Fn(&K, &V) -> MapTransmuteResult<S, X, R>,
        RF: Fn(&K, &W) -> MapTransmuteResult<S, X, R>,
    >(
        &self,
        right: &MNode<K, W>,
        reduce_op: &RO,
        both_op: &MapTransmute<R, B>,
        left_op: &MapTransmute<R, LF>,
        right_op: &MapTransmute<R, RF>,
        depth: usize,
    ) -> (res: (TransmuteResult<S, X, R>, Ghost<Map<K, MapTransmuteResult<S, X, R>>>)) where
        M: HasherBv<u64, K> + HasherBv<u64, S>,

        requires
            self is S || self is L,
            right is S || right is L,
            self.wf::<M>(depth as nat),
            right.wf::<M>(depth as nat),
            self.flat_hash::<M>() == right.flat_hash::<M>(),
            joint_transmute_accepts(
                *both_op,
                *left_op,
                *right_op,
                node_lookup::<K, V, M>(*self, depth as nat),
                node_lookup::<K, W, M>(*right, depth as nat),
            ),
            joint_transmute_fits::<K, V, W, S, X, R, B, LF, RF, M>(
                *both_op,
                *left_op,
                *right_op,
                node_lookup::<K, V, M>(*self, depth as nat),
                node_lookup::<K, W, M>(*right, depth as nat),
            ),
            reduces_all(*reduce_op),
        ensures
            !(res.0 is C),
            res.0.node() matches Some(n) ==> n.wf::<M>(depth as nat) && n.size_of() <= keys_below::<K, V, W, M>(
                *self,
                *right,
                depth as nat,
            ).len(),
            joint_transmuted_lookups(
                *both_op,
                *left_op,
                *right_op,
                node_lookup::<K, V, M>(*self, depth as nat),
                node_lookup::<K, W, M>(*right, depth as nat),
                opt_lookup::<S, X, M>(res.0.node(), depth as nat),
                res.1@,
            ),
            pair_reduced_at(
                *reduce_op,
                joint_transmute_pred(*both_op, *left_op, *right_op),
                joint_transmute_others(*left_op, *right_op),
                node_lookup::<K, V, M>(*self, depth as nat),
                node_lookup::<K, W, M>(*right, depth as nat),
                res.0.reduced(),
            ),
    {
        let ghost d = depth as nat;
        let ghost les = self.flat_entries();
        let ghost res_ = right.flat_entries();
        let ghost ll = node_lookup::<K, V, M>(*self, d);
        let ghost rl = node_lookup::<K, W, M>(*right, d);
        proof {
            assert forall|k: K| #[trigger] ll(k) == entries_lookup(les, k) by {
                self.lemma_flat_lookup::<M>(k, d);
            }
            assert forall|k: K| #[trigger] rl(k) == entries_lookup(res_, k) by {
                right.lemma_flat_lookup::<M>(k, d);
            }
            if let MNode::S(s) = self {
                assert(entries_keys(les) =~= seq![s.spec_key()]);
            }
            if let MNode::S(s) = right {
                assert(entries_keys(res_) =~= seq![s.spec_key()]);
            }
        }
        let lefts = self.snodes();
        let rights = right.snodes();
        let mut out: Vec<Arc<SNode<S, X>>> = Vec::new();
        let mut reduced = R::default();
        let ghost mut outs: Map<K, MapTransmuteResult<S, X, R>> = Map::empty();
        let ghost jok = pair_entries_ok(joint_transmute_pred(*both_op, *left_op, *right_op), ll, rl);
        let ghost jot = joint_transmute_others(*left_op, *right_op);
        let ghost mut red_t: Reduction<K, R> = Reduction::Other(reduced);
        proof {
            assert(entries_keys(snode_entries(out@)) =~= Seq::<S>::empty());
            lemma_fits_other(reduced, *reduce_op, jok, jot);
            assert(outs.dom() =~= Set::<K>::empty());
        }
        let mut i: usize = 0;
        while i < lefts.len()
            invariant
                i <= lefts.len(),
                snode_entries(lefts@) == les,
                snode_entries(rights@) == res_,
                entries_keys(les).no_duplicates(),
                entries_keys(res_).no_duplicates(),
                forall|k: K| #[trigger] ll(k) == entries_lookup(les, k),
                forall|k: K| #[trigger] rl(k) == entries_lookup(res_, k),
                joint_transmute_accepts(*both_op, *left_op, *right_op, ll, rl),
                joint_transmute_fits::<K, V, W, S, X, R, B, LF, RF, M>(*both_op, *left_op, *right_op, ll, rl),
                reduces_all(*reduce_op),
                red_t.value() == reduced,
                reduction_fits(red_t, *reduce_op, outs.dom(), jok, jot),
                jok == pair_entries_ok(joint_transmute_pred(*both_op, *left_op, *right_op), ll, rl),
                jot == joint_transmute_others(*left_op, *right_op),
                outs.dom().finite(),
                out@.len() <= outs.dom().len(),
                entries_keys(snode_entries(out@)).no_duplicates(),
                forall|k: K| #[trigger] outs.dom().contains(k) ==> entries_lookup(les, k) is Some,
                forall|j: int| i <= j < les.len() ==> !outs.dom().contains(#[trigger] les[j].0),
                forall|j: int| 0 <= j < i ==> outs.dom().contains(#[trigger] les[j].0),
                forall|k: K| #[trigger]
                    outs.dom().contains(k) ==> joint_transmute_gives(*both_op, *left_op, *right_op, k, ll(k), rl(k), outs[k]),
                forall|k: K| #[trigger]
                    outs.dom().contains(k) && outs[k].new_entry() is Some ==> entries_lookup(
                        snode_entries(out@),
                        outs[k].new_entry()->Some_0.0,
                    ) == Some(outs[k].new_entry()->Some_0.1),
                forall|s: S| #[trigger]
                    entries_lookup(snode_entries(out@), s) is Some ==> exists|k: K| #[trigger]
                        outs.dom().contains(k) && outs[k].new_entry() is Some && outs[k].new_entry()->Some_0.0 == s,
            decreases lefts.len() - i,
        {
            let e = &lefts[i];
            let ghost key = e.spec_key();
            let ghost value = e.spec_value();
            proof {
                assert(les[i as int] == (key, value));
                lemma_entries_lookup_at(les, i as int);
                assert(ll(key) == Some(value));
                assert(!outs.dom().contains(key));
                assert(joint_transmute_accepts_entry::<K, V, W, S, X, R, B, LF, RF>(
                    *both_op,
                    *left_op,
                    *right_op,
                    key,
                    ll(key),
                    rl(key),
                ));
            }
            let o = match find_snode(&rights, e.key()) {
                Some(j) => {
                    let rn = &rights[j];
                    proof {
                        assert(res_[j as int] == (key, rn.spec_value()));
                        lemma_entries_lookup_at(res_, j as int);
                        assert(rl(key) == Some(rn.spec_value()));
                    }
                    let o = both_op.call_transmute(e.key(), e.value(), rn.key(), rn.value());
                    proof {
                        assert(both_op.gives_pair(key, value, key, rn.spec_value(), o));
                    }
                    o
                },
                None => {
                    proof {
                        lemma_entries_lookup_some(res_, key);
                        assert(rl(key) is None);
                    }
                    let o = left_op.call(e.key(), e.value());
                    proof {
                        assert(left_op.gives(key, value, o));
                    }
                    o
                },
            };
            proof {
                assert(joint_transmute_gives(*both_op, *left_op, *right_op, key, ll(key), rl(key), o));
            }
            let ghost os = snode_entries(out@);
            let ghost pre_outs = outs;
            let ghost go = o;
            let ghost pre_red = reduced;
            match o {
                MapTransmuteResult::Transmuted(s, x, r) => {
                    let sn = SNode::new(s, x);
                    out.push(sn);
                    reduced = reduce_op(&reduced, &r);
                    proof {
                        assert(snode_entries(out@) =~= os.push((sn.spec_key(), sn.spec_value())));
                    }
                },
                MapTransmuteResult::Removed(r) => {
                    reduced = reduce_op(&reduced, &r);
                },
            }
            proof {
                assert(reduce_op.ensures((&pre_red, &go.reduced()), reduced));
                if rl(key) is Some {
                    assert(both_op matches MapTransmute::Generic(f) ==> f.ensures((&key, &value, &key, &rl(key)->Some_0), go));
                } else {
                    assert(left_op matches MapTransmute::Generic(f) ==> f.ensures((&key, &value), go));
                }
                assert(jok(key, go.reduced()));
                red_t = lemma_fits_add_entry(red_t, *reduce_op, pre_outs.dom(), key, go.reduced(), reduced, jok, jot);
                lemma_push_outcome::<K, V, W, S, X, R, B, LF, RF, M>(
                    *both_op,
                    *left_op,
                    *right_op,
                    ll,
                    rl,
                    pre_outs,
                    os,
                    snode_entries(out@),
                    key,
                    go,
                );
                outs = pre_outs.insert(key, go);
                assert forall|j: int| i + 1 <= j < les.len() implies !outs.dom().contains(#[trigger] les[j].0) by {
                    assert(entries_keys(les)[j] == les[j].0);
                    assert(entries_keys(les)[i as int] == les[i as int].0);
                }
            }
            i = i + 1;
        }
        proof {
            assert forall|q: int| 0 <= q < res_.len() && #[trigger] outs.dom().contains(res_[q].0) implies entries_lookup(
                les,
                res_[q].0,
            ) is Some by {
            }
        }
        let mut j: usize = 0;
        while j < rights.len()
            invariant
                j <= rights.len(),
                snode_entries(lefts@) == les,
                snode_entries(rights@) == res_,
                entries_keys(les).no_duplicates(),
                entries_keys(res_).no_duplicates(),
                forall|k: K| #[trigger] ll(k) == entries_lookup(les, k),
                forall|k: K| #[trigger] rl(k) == entries_lookup(res_, k),
                joint_transmute_accepts(*both_op, *left_op, *right_op, ll, rl),
                joint_transmute_fits::<K, V, W, S, X, R, B, LF, RF, M>(*both_op, *left_op, *right_op, ll, rl),
                reduces_all(*reduce_op),
                red_t.value() == reduced,
                reduction_fits(red_t, *reduce_op, outs.dom(), jok, jot),
                jok == pair_entries_ok(joint_transmute_pred(*both_op, *left_op, *right_op), ll, rl),
                jot == joint_transmute_others(*left_op, *right_op),
                outs.dom().finite(),
                out@.len() <= outs.dom().len(),
                entries_keys(snode_entries(out@)).no_duplicates(),
                forall|k: K| #[trigger]
                    outs.dom().contains(k) ==> entries_lookup(les, k) is Some || entries_lookup(res_, k) is Some,
                forall|q: int| 0 <= q < les.len() ==> outs.dom().contains(#[trigger] les[q].0),
                forall|q: int| 0 <= q < j ==> outs.dom().contains(#[trigger] res_[q].0),
                forall|q: int|
                    j <= q < res_.len() ==> (#[trigger] outs.dom().contains(res_[q].0) ==> entries_lookup(les, res_[q].0) is Some),
                forall|k: K| #[trigger]
                    outs.dom().contains(k) ==> joint_transmute_gives(*both_op, *left_op, *right_op, k, ll(k), rl(k), outs[k]),
                forall|k: K| #[trigger]
                    outs.dom().contains(k) && outs[k].new_entry() is Some ==> entries_lookup(
                        snode_entries(out@),
                        outs[k].new_entry()->Some_0.0,
                    ) == Some(outs[k].new_entry()->Some_0.1),
                forall|s: S| #[trigger]
                    entries_lookup(snode_entries(out@), s) is Some ==> exists|k: K| #[trigger]
                        outs.dom().contains(k) && outs[k].new_entry() is Some && outs[k].new_entry()->Some_0.0 == s,
            decreases rights.len() - j,
        {
            let rn = &rights[j];
            let ghost key = rn.spec_key();
            let ghost w = rn.spec_value();
            proof {
                assert(res_[j as int] == (key, w));
                lemma_entries_lookup_at(res_, j as int);
                assert(rl(key) == Some(w));
            }
            match find_snode(&lefts, rn.key()) {
                Some(idx) => {
                    proof {
                        assert(les[idx as int].0 == key);
                    }
                },
                None => {
                    proof {
                        lemma_entries_lookup_some(les, key);
                        assert(ll(key) is None);
                        assert(!outs.dom().contains(key));
                        assert(joint_transmute_accepts_entry::<K, V, W, S, X, R, B, LF, RF>(
                            *both_op,
                            *left_op,
                            *right_op,
                            key,
                            ll(key),
                            rl(key),
                        ));
                    }
                    let o = right_op.call(rn.key(), rn.value());
                    proof {
                        assert(right_op.gives(key, w, o));
                        assert(joint_transmute_gives(*both_op, *left_op, *right_op, key, ll(key), rl(key), o));
                    }
                    let ghost os = snode_entries(out@);
                    let ghost pre_outs = outs;
                    let ghost go = o;
                    let ghost pre_red = reduced;
                    match o {
                        MapTransmuteResult::Transmuted(s, x, r) => {
                            let sn = SNode::new(s, x);
                            out.push(sn);
                            reduced = reduce_op(&reduced, &r);
                            proof {
                                assert(snode_entries(out@) =~= os.push((sn.spec_key(), sn.spec_value())));
                            }
                        },
                        MapTransmuteResult::Removed(r) => {
                            reduced = reduce_op(&reduced, &r);
                        },
                    }
                    proof {
                        assert(reduce_op.ensures((&pre_red, &go.reduced()), reduced));
                        assert(right_op matches MapTransmute::Generic(f) ==> f.ensures((&key, &w), go));
                        assert(jok(key, go.reduced()));
                        red_t = lemma_fits_add_entry(red_t, *reduce_op, pre_outs.dom(), key, go.reduced(), reduced, jok, jot);
                        lemma_push_outcome::<K, V, W, S, X, R, B, LF, RF, M>(
                            *both_op,
                            *left_op,
                            *right_op,
                            ll,
                            rl,
                            pre_outs,
                            os,
                            snode_entries(out@),
                            key,
                            go,
                        );
                        outs = pre_outs.insert(key, go);
                        assert forall|q: int| j + 1 <= q < res_.len() && #[trigger] outs.dom().contains(res_[q].0)
                            implies entries_lookup(les, res_[q].0) is Some by {
                            assert(entries_keys(res_)[q] == res_[q].0);
                            assert(entries_keys(res_)[j as int] == res_[j as int].0);
                        }
                    }
                },
            }
            j = j + 1;
        }
        proof {
            assert forall|k: K| #[trigger] outs.dom().contains(k) <==> (ll(k) is Some || rl(k) is Some) by {
                lemma_entries_lookup_some(les, k);
                lemma_entries_lookup_some(res_, k);
                if entries_lookup(les, k) is Some {
                    let q = choose|q: int| 0 <= q < les.len() && les[q].0 == k && les[q].1 == entries_lookup(les, k)->Some_0;
                    assert(outs.dom().contains(les[q].0));
                }
                if entries_lookup(res_, k) is Some {
                    let q = choose|q: int| 0 <= q < res_.len() && res_[q].0 == k && res_[q].1 == entries_lookup(res_, k)->Some_0;
                    assert(outs.dom().contains(res_[q].0));
                }
            }
        }
        proof {
            assert(outs.dom() =~= lookup_keys(ll).union(lookup_keys(rl)));
            assert(red_t.combines(*reduce_op));
        }
        let ghost os = snode_entries(out@);
        let made = MNode::from_snodes(&out);
        let t = match &made {
            None => TransmuteResult::Removed(reduced),
            Some(MNode::S(s)) => TransmuteResult::S(s.clone(), reduced),
            Some(MNode::L(l)) => TransmuteResult::L(l.clone(), reduced),
            Some(MNode::C(_)) => {
                proof {
                    assert(false);
                }
                TransmuteResult::Removed(reduced)
            },
        };
        proof {
            assert(t.node() == made);
            self.lemma_joint_transmute_flat_node::<M, W, S, X, R, B, LF, RF>(*right, *both_op, *left_op, *right_op, t, os, outs, d);
        }
        (t, Ghost(outs))
    }
}

/// A reduction of a transmutation's values for the entries of one side
/// alone, with nothing on the other side, is one of
/// `transmute_with_transmuted`'s values for them.
pub proof fn lemma_joint_transmute_reduced_side<K, V, W, S, X, R: Clone + Default, RO: Fn(&R, &R) -> R, B, LF, RF>(
    reduce_op: RO,
    both_op: MapTransmute<R, B>,
    left_op: MapTransmute<R, LF>,
    right_op: MapTransmute<R, RF>,
    ll: spec_fn(K) -> Option<V>,
    rl: spec_fn(K) -> Option<W>,
    r: R,
    left_side: bool,
) where
    B: Fn(&K, &V, &K, &W) -> MapTransmuteResult<S, X, R>,
    LF: Fn(&K, &V) -> MapTransmuteResult<S, X, R>,
    RF: Fn(&K, &W) -> MapTransmuteResult<S, X, R>,

    requires
        left_side ==> (forall|k: K| #[trigger] rl(k) is None) && transmute_reduced_at(reduce_op, left_op, ll, r),
        !left_side ==> (forall|k: K| #[trigger] ll(k) is None) && transmute_reduced_at(reduce_op, right_op, rl, r),
    ensures
        pair_reduced_at(
            reduce_op,
            joint_transmute_pred(both_op, left_op, right_op),
            joint_transmute_others(left_op, right_op),
            ll,
            rl,
            r,
        ),
{
    let pred = joint_transmute_pred(both_op, left_op, right_op);
    let keys = lookup_keys(ll).union(lookup_keys(rl));
    if left_side {
        let t = choose|t: Reduction<K, R>|
            #![trigger t.combines(reduce_op)]
            reduction_fits(t, reduce_op, lookup_keys(ll), transmute_entries_ok(left_op, ll), transmute_others_ok(left_op))
                && t.value() == r;
        assert(lookup_keys(ll) =~= keys) by {
            assert forall|k: K| keys.contains(k) implies lookup_keys(ll).contains(k) by {
                assert(rl(k) is None);
            }
        }
        assert forall|k: K, y: R| lookup_keys(ll).contains(k) && #[trigger] transmute_entries_ok(left_op, ll)(k, y) implies #[trigger] pair_entries_ok(
            pred,
            ll,
            rl,
        )(k, y) by {
            assert(rl(k) is None);
        }
        lemma_fits_weaken(
            t,
            reduce_op,
            lookup_keys(ll),
            keys,
            transmute_entries_ok(left_op, ll),
            pair_entries_ok(pred, ll, rl),
            transmute_others_ok(left_op),
            joint_transmute_others(left_op, right_op),
        );
        assert(t.combines(reduce_op));
    } else {
        let t = choose|t: Reduction<K, R>|
            #![trigger t.combines(reduce_op)]
            reduction_fits(t, reduce_op, lookup_keys(rl), transmute_entries_ok(right_op, rl), transmute_others_ok(right_op))
                && t.value() == r;
        assert(lookup_keys(rl) =~= keys) by {
            assert forall|k: K| keys.contains(k) implies lookup_keys(rl).contains(k) by {
                assert(ll(k) is None);
            }
        }
        assert forall|k: K, y: R| lookup_keys(rl).contains(k) && #[trigger] transmute_entries_ok(right_op, rl)(k, y) implies #[trigger] pair_entries_ok(
            pred,
            ll,
            rl,
        )(k, y) by {
            assert(ll(k) is None);
        }
        lemma_fits_weaken(
            t,
            reduce_op,
            lookup_keys(rl),
            keys,
            transmute_entries_ok(right_op, rl),
            pair_entries_ok(pred, ll, rl),
            transmute_others_ok(right_op),
            joint_transmute_others(left_op, right_op),
        );
        assert(t.combines(reduce_op));
    }
}

/// A transmutation of the entries of one side only is what
/// `transmute_with_transmuted` makes of them with nothing on the other side.
pub proof fn lemma_joint_transmute_one_side<K, V, W, S, X, R, B, LF, RF>(
    both_op: MapTransmute<R, B>,
    left_op: MapTransmute<R, LF>,
    right_op: MapTransmute<R, RF>,
    ll: spec_fn(K) -> Option<V>,
    rl: spec_fn(K) -> Option<W>,
    nl: spec_fn(S) -> Option<X>,
    outs: Map<K, MapTransmuteResult<S, X, R>>,
    left_side: bool,
) where
    B: Fn(&K, &V, &K, &W) -> MapTransmuteResult<S, X, R>,
    LF: Fn(&K, &V) -> MapTransmuteResult<S, X, R>,
    RF: Fn(&K, &W) -> MapTransmuteResult<S, X, R>,

    requires
        left_side ==> (forall|k: K| #[trigger] rl(k) is None) && transmuted_lookups(left_op, ll, nl, outs),
        !left_side ==> (forall|k: K| #[trigger] ll(k) is None) && transmuted_lookups(right_op, rl, nl, outs),
    ensures
        joint_transmuted_lookups(both_op, left_op, right_op, ll, rl, nl, outs),
{
    if left_side {
        assert forall|k: K| #[trigger] outs.dom().contains(k) <==> (ll(k) is Some || rl(k) is Some) by {
            assert(rl(k) is None);
        }
        assert forall|k: K| #[trigger] outs.dom().contains(k) implies joint_transmute_gives(
            both_op,
            left_op,
            right_op,
            k,
            ll(k),
            rl(k),
            outs[k],
        ) by {
            assert(rl(k) is None);
        }
    } else {
        assert forall|k: K| #[trigger] outs.dom().contains(k) <==> (ll(k) is Some || rl(k) is Some) by {
            assert(ll(k) is None);
        }
        assert forall|k: K| #[trigger] outs.dom().contains(k) implies joint_transmute_gives(
            both_op,
            left_op,
            right_op,
            k,
            ll(k),
            rl(k),
            outs[k],
        ) by {
            assert(ll(k) is None);
        }
    }
}

impl<K, V> MNode<K, V> {
    /// The child at `p` of one side, with no child of the other side there, may
    /// be transmuted by that side's operation: it may run on its entries, and
    /// each result keeps its place.
    proof fn lemma_joint_transmute_side<M, W, S, X, R, B, LF, RF>(
        self,
        right: MNode<K, W>,
        both_op: MapTransmute<R, B>,
        left_op: MapTransmute<R, LF>,
        right_op: MapTransmute<R, RF>,
        d: nat,
        p: int,
        left_side: bool,
    ) where
        B: Fn(&K, &V, &K, &W) -> MapTransmuteResult<S, X, R>,
        LF: Fn(&K, &V) -> MapTransmuteResult<S, X, R>,
        RF: Fn(&K, &W) -> MapTransmuteResult<S, X, R>,
        M: HasherBv<u64, K> + HasherBv<u64, S>,

        requires
            self.wf::<M>(d),
            right.wf::<M>(d),
            d <= max_depth(),
            joint_transmute_accepts(both_op, left_op, right_op, node_lookup::<K, V, M>(self, d), node_lookup::<K, W, M>(right, d)),
            joint_transmute_fits::<K, V, W, S, X, R, B, LF, RF, M>(
                both_op,
                left_op,
                right_op,
                node_lookup::<K, V, M>(self, d),
                node_lookup::<K, W, M>(right, d),
            ),
            left_side ==> self.children_at::<M>(d).contains_key(p) && !right.children_at::<M>(d).contains_key(p),
            !left_side ==> right.children_at::<M>(d).contains_key(p) && !self.children_at::<M>(d).contains_key(p),
        ensures
            left_side ==> transmute_accepts(left_op, node_lookup::<K, V, M>(self.children_at::<M>(d)[p], d + 1))
                && transmute_fits::<K, V, S, X, R, LF, M>(left_op, node_lookup::<K, V, M>(self.children_at::<M>(d)[p], d + 1)),
            !left_side ==> transmute_accepts(right_op, node_lookup::<K, W, M>(right.children_at::<M>(d)[p], d + 1))
                && transmute_fits::<K, W, S, X, R, RF, M>(right_op, node_lookup::<K, W, M>(right.children_at::<M>(d)[p], d + 1)),
    {
        let pl = node_lookup::<K, V, M>(self, d);
        let pr = node_lookup::<K, W, M>(right, d);
        self.lemma_children_at::<M>(d);
        right.lemma_children_at::<M>(d);
        if left_side {
            let ln = self.children_at::<M>(d)[p];
            let cl = node_lookup::<K, V, M>(ln, d + 1);
            assert forall|k: K| #[trigger] cl(k) is Some implies pl(k) == cl(k) && pr(k) is None by {
                assert(ln.lookup::<M>(k, d + 1) is Some);
                assert(self.lookup::<M>(k, d) == child_lookup::<K, V, M>(self.children_at::<M>(d), k, d));
                assert(right.lookup::<M>(k, d) == child_lookup::<K, W, M>(right.children_at::<M>(d), k, d));
            }
            assert forall|k: K| #[trigger] cl(k) is Some implies left_op.accepts(k, cl(k)->Some_0) by {
                assert(joint_transmute_accepts_entry::<K, V, W, S, X, R, B, LF, RF>(both_op, left_op, right_op, k, pl(k), pr(k)));
            }
            assert forall|k: K, r: MapTransmuteResult<S, X, R>|
                #![trigger left_op.gives(k, cl(k)->Some_0, r)]
                cl(k) is Some && left_op.gives(k, cl(k)->Some_0, r) && r.new_entry() is Some implies <M as HasherBv<
                    u64,
                    S,
                >>::hash_of(r.new_entry()->Some_0.0) == <M as HasherBv<u64, K>>::hash_of(k) by {
                assert(joint_transmute_gives(both_op, left_op, right_op, k, pl(k), pr(k), r));
            }
            assert forall|k1: K, k2: K, r1: MapTransmuteResult<S, X, R>, r2: MapTransmuteResult<S, X, R>|
                #![trigger left_op.gives(k1, cl(k1)->Some_0, r1), left_op.gives(k2, cl(k2)->Some_0, r2)]
                cl(k1) is Some && cl(k2) is Some && k1 != k2 && left_op.gives(k1, cl(k1)->Some_0, r1) && left_op.gives(
                    k2,
                    cl(k2)->Some_0,
                    r2,
                ) && r1.new_entry() is Some && r2.new_entry() is Some implies r1.new_entry()->Some_0.0
                != r2.new_entry()->Some_0.0 by {
                assert(joint_transmute_gives(both_op, left_op, right_op, k1, pl(k1), pr(k1), r1));
                assert(joint_transmute_gives(both_op, left_op, right_op, k2, pl(k2), pr(k2), r2));
            }
        } else {
            let rn = right.children_at::<M>(d)[p];
            let cr = node_lookup::<K, W, M>(rn, d + 1);
            assert forall|k: K| #[trigger] cr(k) is Some implies pr(k) == cr(k) && pl(k) is None by {
                assert(rn.lookup::<M>(k, d + 1) is Some);
                assert(self.lookup::<M>(k, d) == child_lookup::<K, V, M>(self.children_at::<M>(d), k, d));
                assert(right.lookup::<M>(k, d) == child_lookup::<K, W, M>(right.children_at::<M>(d), k, d));
            }
            assert forall|k: K| #[trigger] cr(k) is Some implies right_op.accepts(k, cr(k)->Some_0) by {
                assert(joint_transmute_accepts_entry::<K, V, W, S, X, R, B, LF, RF>(both_op, left_op, right_op, k, pl(k), pr(k)));
            }
            assert forall|k: K, r: MapTransmuteResult<S, X, R>|
                #![trigger right_op.gives(k, cr(k)->Some_0, r)]
                cr(k) is Some && right_op.gives(k, cr(k)->Some_0, r) && r.new_entry() is Some implies <M as HasherBv<
                    u64,
                    S,
                >>::hash_of(r.new_entry()->Some_0.0) == <M as HasherBv<u64, K>>::hash_of(k) by {
                assert(joint_transmute_gives(both_op, left_op, right_op, k, pl(k), pr(k), r));
            }
            assert forall|k1: K, k2: K, r1: MapTransmuteResult<S, X, R>, r2: MapTransmuteResult<S, X, R>|
                #![trigger right_op.gives(k1, cr(k1)->Some_0, r1), right_op.gives(k2, cr(k2)->Some_0, r2)]
                cr(k1) is Some && cr(k2) is Some && k1 != k2 && right_op.gives(k1, cr(k1)->Some_0, r1) && right_op.gives(
                    k2,
                    cr(k2)->Some_0,
                    r2,
                ) && r1.new_entry() is Some && r2.new_entry() is Some implies r1.new_entry()->Some_0.0
                != r2.new_entry()->Some_0.0 by {
                assert(joint_transmute_gives(both_op, left_op, right_op, k1, pl(k1), pr(k1), r1));
                assert(joint_transmute_gives(both_op, left_op, right_op, k2, pl(k2), pr(k2), r2));
            }
        }
    }

    /// The children of two nodes at one position may be transmuted together:
    /// they are well formed, lie on one path, hold fewer keys than their parents
    /// together, and the operations may run on their entries and keep places.
    proof fn lemma_joint_transmute_step<M, W, S, X, R, B, LF, RF>(
        self,
        right: MNode<K, W>,
        both_op: MapTransmute<R, B>,
        left_op: MapTransmute<R, LF>,
        right_op: MapTransmute<R, RF>,
        d: nat,
        p: int,
    ) where
        B: Fn(&K, &V, &K, &W) -> MapTransmuteResult<S, X, R>,
        LF: Fn(&K, &V) -> MapTransmuteResult<S, X, R>,
        RF: Fn(&K, &W) -> MapTransmuteResult<S, X, R>,
        M: HasherBv<u64, K> + HasherBv<u64, S>,

        requires
            self.wf::<M>(d),
            right.wf::<M>(d),
            d <= max_depth(),
            paths_agree::<K, V, W, M>(self, right, d),
            keys_below::<K, V, W, M>(self, right, d).finite(),
            keys_below::<K, V, W, M>(self, right, d).len() <= usize::MAX,
            joint_transmute_accepts(both_op, left_op, right_op, node_lookup::<K, V, M>(self, d), node_lookup::<K, W, M>(right, d)),
            joint_transmute_fits::<K, V, W, S, X, R, B, LF, RF, M>(
                both_op,
                left_op,
                right_op,
                node_lookup::<K, V, M>(self, d),
                node_lookup::<K, W, M>(right, d),
            ),
            self.children_at::<M>(d).contains_key(p),
            right.children_at::<M>(d).contains_key(p),
        ensures
            self.children_at::<M>(d)[p].wf::<M>(d + 1),
            right.children_at::<M>(d)[p].wf::<M>(d + 1),
            paths_agree::<K, V, W, M>(self.children_at::<M>(d)[p], right.children_at::<M>(d)[p], d + 1),
            keys_below::<K, V, W, M>(self.children_at::<M>(d)[p], right.children_at::<M>(d)[p], d + 1).len() <= usize::MAX,
            joint_transmute_accepts(
                both_op,
                left_op,
                right_op,
                node_lookup::<K, V, M>(self.children_at::<M>(d)[p], d + 1),
                node_lookup::<K, W, M>(right.children_at::<M>(d)[p], d + 1),
            ),
            joint_transmute_fits::<K, V, W, S, X, R, B, LF, RF, M>(
                both_op,
                left_op,
                right_op,
                node_lookup::<K, V, M>(self.children_at::<M>(d)[p], d + 1),
                node_lookup::<K, W, M>(right.children_at::<M>(d)[p], d + 1),
            ),
    {
        let ln = self.children_at::<M>(d)[p];
        let rn = right.children_at::<M>(d)[p];
        let pl = node_lookup::<K, V, M>(self, d);
        let pr = node_lookup::<K, W, M>(right, d);
        let cl = node_lookup::<K, V, M>(ln, d + 1);
        let cr = node_lookup::<K, W, M>(rn, d + 1);
        self.lemma_children_at::<M>(d);
        right.lemma_children_at::<M>(d);
        ln.lemma_size_view::<M>(d + 1);
        rn.lemma_size_view::<M>(d + 1);
        assert forall|k1: K, k2: K|
            #![trigger ln.lookup::<M>(k1, d + 1), rn.lookup::<M>(k2, d + 1)]
            ln.lookup::<M>(k1, d + 1) is Some && rn.lookup::<M>(k2, d + 1) is Some implies agrees_below(
                <M as HasherBv<u64, K>>::hash_of(k1),
                <M as HasherBv<u64, K>>::hash_of(k2),
                d + 1,
            ) by {
            assert(self.lookup::<M>(k1, d) == child_lookup::<K, V, M>(self.children_at::<M>(d), k1, d));
            assert(right.lookup::<M>(k2, d) == child_lookup::<K, W, M>(right.children_at::<M>(d), k2, d));
            assert(agrees_below(<M as HasherBv<u64, K>>::hash_of(k1), <M as HasherBv<u64, K>>::hash_of(k2), d));
            assert forall|j: nat| j < d + 1 implies #[trigger] hash_chunk(<M as HasherBv<u64, K>>::hash_of(k1), j) == hash_chunk(
                <M as HasherBv<u64, K>>::hash_of(k2),
                j,
            ) by {
                if j < d {
                    assert(hash_chunk(<M as HasherBv<u64, K>>::hash_of(k1), j) == hash_chunk(<M as HasherBv<u64, K>>::hash_of(k2), j));
                }
            }
        }
        let cu = keys_below::<K, V, W, M>(ln, rn, d + 1);
        assert(cu.subset_of(keys_below::<K, V, W, M>(self, right, d))) by {
            assert forall|k: K| cu.contains(k) implies #[trigger] keys_below::<K, V, W, M>(self, right, d).contains(k) by {
                if ln.lookup::<M>(k, d + 1) is Some {
                    assert(self.lookup::<M>(k, d) == child_lookup::<K, V, M>(self.children_at::<M>(d), k, d));
                } else {
                    assert(right.lookup::<M>(k, d) == child_lookup::<K, W, M>(right.children_at::<M>(d), k, d));
                }
            }
        }
        vstd::set_lib::lemma_len_subset(cu, keys_below::<K, V, W, M>(self, right, d));
        assert forall|k: K| #[trigger] cl(k) is Some || #[trigger] cr(k) is Some implies pl(k) == cl(k) && pr(k) == cr(k) by {
            if cl(k) is Some {
                assert(ln.lookup::<M>(k, d + 1) is Some);
            } else {
                assert(rn.lookup::<M>(k, d + 1) is Some);
            }
            assert(self.lookup::<M>(k, d) == child_lookup::<K, V, M>(self.children_at::<M>(d), k, d));
            assert(right.lookup::<M>(k, d) == child_lookup::<K, W, M>(right.children_at::<M>(d), k, d));
        }
        assert forall|k: K|
            #![trigger cl(k)]
            #![trigger cr(k)]
            joint_transmute_accepts_entry::<K, V, W, S, X, R, B, LF, RF>(both_op, left_op, right_op, k, cl(k), cr(k)) by {
            if cl(k) is Some || cr(k) is Some {
                assert(joint_transmute_accepts_entry::<K, V, W, S, X, R, B, LF, RF>(both_op, left_op, right_op, k, pl(k), pr(k)));
            }
        }
        assert forall|k: K, r: MapTransmuteResult<S, X, R>|
            #![trigger joint_transmute_gives(both_op, left_op, right_op, k, cl(k), cr(k), r)]
            joint_transmute_gives(both_op, left_op, right_op, k, cl(k), cr(k), r) && r.new_entry() is Some implies <M as HasherBv<
                u64,
                S,
            >>::hash_of(r.new_entry()->Some_0.0) == <M as HasherBv<u64, K>>::hash_of(k) by {
            assert(cl(k) is Some || cr(k) is Some);
            assert(joint_transmute_gives(both_op, left_op, right_op, k, pl(k), pr(k), r));
        }
        assert forall|k1: K, k2: K, r1: MapTransmuteResult<S, X, R>, r2: MapTransmuteResult<S, X, R>|
            #![trigger joint_transmute_gives(both_op, left_op, right_op, k1, cl(k1), cr(k1), r1), joint_transmute_gives(both_op, left_op, right_op, k2, cl(k2), cr(k2), r2)]
            k1 != k2 && joint_transmute_gives(both_op, left_op, right_op, k1, cl(k1), cr(k1), r1) && joint_transmute_gives(
                both_op,
                left_op,
                right_op,
                k2,
                cl(k2),
                cr(k2),
                r2,
            ) && r1.new_entry() is Some && r2.new_entry() is Some implies r1.new_entry()->Some_0.0 != r2.new_entry()->Some_0.0 by {
            assert(cl(k1) is Some || cr(k1) is Some);
            assert(cl(k2) is Some || cr(k2) is Some);
            assert(joint_transmute_gives(both_op, left_op, right_op, k1, pl(k1), pr(k1), r1));
            assert(joint_transmute_gives(both_op, left_op, right_op, k2, pl(k2), pr(k2), r2));
        }
    }
}

impl<K: Key, V> MNode<K, V> {
    /// Run `transmute_with_transmuted` on the entries below `self` and `right` at
    /// `depth`: `both_op` on the keys of both sides, `left_op` and `right_op` on
    /// the keys of one side only, each new entry in the place of the entry it
    /// comes from.
    pub fn transmute_with_transmuted<
        M,
        W,
        S,
        X,
        R: Clone + Default,
        RO: Fn(&R, &R) -> R,
        B: Fn(&K, &V, &K, &W) -> MapTransmuteResult<S, X, R>,
        LF: Fn(&K, &V) -> MapTransmuteResult<S, X, R>,
        RF: Fn(&K, &W) -> MapTransmuteResult<S, X, R>,
    >(
        &self,
        right: &MNode<K, W>,
        reduce_op: &RO,
        both_op: &MapTransmute<R, B>,
        left_op: &MapTransmute<R, LF>,
        right_op: &MapTransmute<R, RF>,
        depth: usize,
    ) -> (res: (TransmuteResult<S, X, R>, Ghost<Map<K, MapTransmuteResult<S, X, R>>>)) where
        M: HasherBv<u64, K> + HasherBv<u64, S>,

        requires
            self.wf::<M>(depth as nat),
            right.wf::<M>(depth as nat),
            depth <= 13,
            paths_agree::<K, V, W, M>(*self, *right, depth as nat),
            keys_below::<K, V, W, M>(*self, *right, depth as nat).len() <= usize::MAX,
            joint_transmute_accepts(
                *both_op,
                *left_op,
                *right_op,
                node_lookup::<K, V, M>(*self, depth as nat),
                node_lookup::<K, W, M>(*right, depth as nat),
            ),
            joint_transmute_fits::<K, V, W, S, X, R, B, LF, RF, M>(
                *both_op,
                *left_op,
                *right_op,
                node_lookup::<K, V, M>(*self, depth as nat),
                node_lookup::<K, W, M>(*right, depth as nat),
            ),
            reduces_all(*reduce_op),
        ensures
            res.0.node() matches Some(n) ==> n.wf::<M>(depth as nat) && n.size_of() <= keys_below::<K, V, W, M>(
                *self,
                *right,
                depth as nat,
            ).len(),
            joint_transmuted_lookups(
                *both_op,
                *left_op,
                *right_op,
                node_lookup::<K, V, M>(*self, depth as nat),
                node_lookup::<K, W, M>(*right, depth as nat),
                opt_lookup::<S, X, M>(res.0.node(), depth as nat),
                res.1@,
            ),
            pair_reduced_at(
                *reduce_op,
                joint_transmute_pred(*both_op, *left_op, *right_op),
                joint_transmute_others(*left_op, *right_op),
                node_lookup::<K, V, M>(*self, depth as nat),
                node_lookup::<K, W, M>(*right, depth as nat),
                res.0.reduced(),
            ),
        decreases 13 - depth, 1nat,
    {
        let same_hash = match self.flat_key::<M>() {
            Some(a) => match right.flat_key::<M>() {
                Some(b) => <M as HasherBv<u64, K>>::hash(a) == <M as HasherBv<u64, K>>::hash(b),
                None => false,
            },
            None => false,
        };
        if same_hash {
            self.joint_transmute_flat::<M, W, S, X, R, RO, B, LF, RF>(right, reduce_op, both_op, left_op, right_op, depth)
        } else {
            proof {
                if depth > max_depth() && !(self is C) && !(right is C) {
                    self.lemma_flat::<M>(depth as nat, depth as nat);
                    right.lemma_flat::<M>(depth as nat, depth as nat);
                    let k1 = self.flat_entries()[0].0;
                    let k2 = right.flat_entries()[0].0;
                    self.lemma_flat_lookup::<M>(k1, depth as nat);
                    right.lemma_flat_lookup::<M>(k2, depth as nat);
                    lemma_entries_lookup_some(self.flat_entries(), k1);
                    lemma_entries_lookup_some(right.flat_entries(), k2);
                    assert(entries_keys(self.flat_entries())[0] == k1);
                    assert(entries_keys(right.flat_entries())[0] == k2);
                    assert(self.lookup::<M>(k1, depth as nat) is Some);
                    assert(right.lookup::<M>(k2, depth as nat) is Some);
                    lemma_agree_all(<M as HasherBv<u64, K>>::hash_of(k1), <M as HasherBv<u64, K>>::hash_of(k2), depth as nat);
                }
            }
            self.joint_transmute_children::<M, W, S, X, R, RO, B, LF, RF>(right, reduce_op, both_op, left_op, right_op, depth)
        }
    }

    /// `transmute_with_transmuted` at `depth` position by position: the children
    /// of both sides at a position are transmuted together, a child of one side
    /// only by that side's operation, and the children made are gathered.
    #[verifier::rlimit(80)]
    fn joint_transmute_children<
        M,
        W,
        S,
        X,
        R: Clone + Default,
        RO: Fn(&R, &R) -> R,
        B: Fn(&K, &V, &K, &W) -> MapTransmuteResult<S, X, R>,
        LF: Fn(&K, &V) -> MapTransmuteResult<S, X, R>,
        RF: Fn(&K, &W) -> MapTransmuteResult<S, X, R>,
    >(
        &self,
        right: &MNode<K, W>,
        reduce_op: &RO,
        both_op: &MapTransmute<R, B>,
        left_op: &MapTransmute<R, LF>,
        right_op: &MapTransmute<R, RF>,
        depth: usize,
    ) -> (res: (TransmuteResult<S, X, R>, Ghost<Map<K, MapTransmuteResult<S, X, R>>>)) where
        M: HasherBv<u64, K> + HasherBv<u64, S>,

        requires
            self.wf::<M>(depth as nat),
            right.wf::<M>(depth as nat),
            depth as nat <= max_depth(),
            paths_agree::<K, V, W, M>(*self, *right, depth as nat),
            keys_below::<K, V, W, M>(*self, *right, depth as nat).len() <= usize::MAX,
            joint_transmute_accepts(
                *both_op,
                *left_op,
                *right_op,
                node_lookup::<K, V, M>(*self, depth as nat),
                node_lookup::<K, W, M>(*right, depth as nat),
            ),
            joint_transmute_fits::<K, V, W, S, X, R, B, LF, RF, M>(
                *both_op,
                *left_op,
                *right_op,
                node_lookup::<K, V, M>(*self, depth as nat),
                node_lookup::<K, W, M>(*right, depth as nat),
            ),
            reduces_all(*reduce_op),
        ensures
            res.0.node() matches Some(n) ==> n.wf::<M>(depth as nat) && n.size_of() <= keys_below::<K, V, W, M>(
                *self,
                *right,
                depth as nat,
            ).len(),
            joint_transmuted_lookups(
                *both_op,
                *left_op,
                *right_op,
                node_lookup::<K, V, M>(*self, depth as nat),
                node_lookup::<K, W, M>(*right, depth as nat),
                opt_lookup::<S, X, M>(res.0.node(), depth as nat),
                res.1@,
            ),
            pair_reduced_at(
                *reduce_op,
                joint_transmute_pred(*both_op, *left_op, *right_op),
                joint_transmute_others(*left_op, *right_op),
                node_lookup::<K, V, M>(*self, depth as nat),
                node_lookup::<K, W, M>(*right, depth as nat),
                res.0.reduced(),
            ),
        decreases 13 - depth, 0nat,
    {
        let ghost d = depth as nat;
        let ghost lc = self.children_at::<M>(d);
        let ghost rc = right.children_at::<M>(d);
        let ghost all = keys_below::<K, V, W, M>(*self, *right, d);
        let ghost pl = node_lookup::<K, V, M>(*self, d);
        let ghost pr = node_lookup::<K, W, M>(*right, d);
        proof {
            self.lemma_children_at::<M>(d);
            right.lemma_children_at::<M>(d);
            self.lemma_size_view::<M>(d);
            right.lemma_size_view::<M>(d);
        }
        let lchunk: usize = match self.flat_key::<M>() {
            Some(a) => {
                let h = <M as HasherBv<u64, K>>::hash(a);
                proof {
                    crate::flag::lemma_hash_chunk_range(h, d);
                }
                ((h >> ((5 * depth) as u64)) & 31u64) as usize
            },
            None => 32,
        };
        let rchunk: usize = match right.flat_key::<M>() {
            Some(b) => {
                let h = <M as HasherBv<u64, K>>::hash(b);
                proof {
                    crate::flag::lemma_hash_chunk_range(h, d);
                }
                ((h >> ((5 * depth) as u64)) & 31u64) as usize
            },
            None => 32,
        };
        let mut size: usize = 0;
        let mut bits_t: u32 = u32::zero_word();
        let mut values_t: Vec<MNode<S, X>> = Vec::new();
        let mut reduced: R = R::default();
        let ghost mut newc: Map<int, MNode<S, X>> = Map::empty();
        let ghost mut keys: Set<S> = Set::empty();
        let ghost mut outs: Map<K, MapTransmuteResult<S, X, R>> = Map::empty();
        let ghost jpred = joint_transmute_pred(*both_op, *left_op, *right_op);
        let ghost jot = joint_transmute_others(*left_op, *right_op);
        let ghost mut red_t: Reduction<K, R> = Reduction::Other(reduced);
        proof {
            lemma_count_zero(bits_t.bit_seq());
            lemma_fits_other(reduced, *reduce_op, pair_entries_ok(jpred, pl, pr), jot);
            assert(outs.dom() =~= Set::<K>::empty());
        }
        let mut index: usize = 0;
        while index < 32
            invariant
                index <= 32,
                d == depth as nat,
                d <= max_depth(),
                lc == self.children_at::<M>(d),
                rc == right.children_at::<M>(d),
                all == keys_below::<K, V, W, M>(*self, *right, d),
                all.finite(),
                all.len() <= usize::MAX,
                pl == node_lookup::<K, V, M>(*self, d),
                pr == node_lookup::<K, W, M>(*right, d),
                jpred == joint_transmute_pred(*both_op, *left_op, *right_op),
                jot == joint_transmute_others(*left_op, *right_op),
                red_t.value() == reduced,
                reduction_fits(red_t, *reduce_op, outs.dom(), pair_entries_ok(jpred, pl, pr), jot),
                self.wf::<M>(d),
                right.wf::<M>(d),
                paths_agree::<K, V, W, M>(*self, *right, d),
                joint_transmute_accepts(*both_op, *left_op, *right_op, pl, pr),
                joint_transmute_fits::<K, V, W, S, X, R, B, LF, RF, M>(*both_op, *left_op, *right_op, pl, pr),
                reduces_all(*reduce_op),
                !(self is C) ==> lchunk == hash_chunk(self.flat_hash::<M>(), d),
                !(right is C) ==> rchunk == hash_chunk(right.flat_hash::<M>(), d),
                forall|k: K| #[trigger] self.lookup::<M>(k, d) == child_lookup::<K, V, M>(lc, k, d),
                forall|k: K| #[trigger] right.lookup::<M>(k, d) == child_lookup::<K, W, M>(rc, k, d),
                forall|p: int| #[trigger]
                    lc.contains_key(p) ==> {
                        &&& 0 <= p < 32
                        &&& lc[p].wf::<M>(d + 1)
                        &&& forall|k: K| #[trigger]
                            lc[p].lookup::<M>(k, d + 1) is Some ==> hash_chunk(<M as HasherBv<u64, K>>::hash_of(k), d) == p
                    },
                forall|p: int| #[trigger]
                    rc.contains_key(p) ==> {
                        &&& 0 <= p < 32
                        &&& rc[p].wf::<M>(d + 1)
                        &&& forall|k: K| #[trigger]
                            rc[p].lookup::<M>(k, d + 1) is Some ==> hash_chunk(<M as HasherBv<u64, K>>::hash_of(k), d) == p
                    },
                bits_t.bit_seq().len() == 32,
                forall|p: int| 0 <= p < 32 ==> #[trigger] bits_t.bit_seq()[p] == newc.contains_key(p),
                forall|p: int|
                    #[trigger] newc.contains_key(p) ==> {
                        &&& 0 <= p < index
                        &&& newc[p].wf::<M>(d + 1)
                        &&& values_t@[rank(bits_t.bit_seq(), p) as int] == newc[p]
                        &&& forall|s: S| #[trigger]
                            newc[p].lookup::<M>(s, d + 1) is Some ==> hash_chunk(<M as HasherBv<u64, S>>::hash_of(s), d) == p
                    },
                values_t@.len() == count_set(bits_t.bit_seq()),
                forall|k: K| #[trigger]
                    outs.dom().contains(k) <==> (hash_chunk(<M as HasherBv<u64, K>>::hash_of(k), d) < index && (pl(k) is Some
                        || pr(k) is Some)),
                forall|k: K| #[trigger]
                    outs.dom().contains(k) ==> joint_transmute_gives(*both_op, *left_op, *right_op, k, pl(k), pr(k), outs[k]),
                forall|k: K| #[trigger]
                    outs.dom().contains(k) && outs[k].new_entry() is Some ==> child_lookup::<S, X, M>(
                        newc,
                        outs[k].new_entry()->Some_0.0,
                        d,
                    ) == Some(outs[k].new_entry()->Some_0.1),
                forall|s: S| #[trigger]
                    child_lookup::<S, X, M>(newc, s, d) is Some ==> exists|k: K| #[trigger]
                        outs.dom().contains(k) && outs[k].new_entry() is Some && outs[k].new_entry()->Some_0.0 == s,
                keys.finite(),
                size == keys.len(),
                forall|s: S| #[trigger] keys.contains(s) <==> child_lookup::<S, X, M>(newc, s, d) is Some,
                outs.dom().finite(),
                outs.dom().subset_of(all),
                size <= outs.dom().len(),
            decreases 32 - index,
        {
            let ghost pre_newc = newc;
            let ghost pre_keys = keys;
            let ghost pre_outs = outs;
            let ghost pre_bits = bits_t.bit_seq();
            let ghost p = index as int;
            let lchild: Option<&MNode<K, V>> = match self {
                MNode::C(c) => match c.nodes.at_index(index) {
                    Ok(n) => Some(n),
                    Err(_) => None,
                },
                _ => if index == lchunk {
                    Some(self)
                } else {
                    None
                },
            };
            let rchild: Option<&MNode<K, W>> = match right {
                MNode::C(c) => match c.nodes.at_index(index) {
                    Ok(n) => Some(n),
                    Err(_) => None,
                },
                _ => if index == rchunk {
                    Some(right)
                } else {
                    None
                },
            };
            let ghost cll = |k: K| lookup_in::<K, V, M>(lc.get(p), k, d + 1);
            let ghost crl = |k: K| lookup_in::<K, W, M>(rc.get(p), k, d + 1);
            proof {
                assert(lchild is Some <==> lc.contains_key(p));
                assert(lchild matches Some(n) ==> *n == lc[p]);
                assert(rchild is Some <==> rc.contains_key(p));
                assert(rchild matches Some(n) ==> *n == rc[p]);
                assert forall|k: K| hash_chunk(<M as HasherBv<u64, K>>::hash_of(k), d) == p implies #[trigger] pl(k) == cll(k)
                    && pr(k) == crl(k) by {
                    assert(self.lookup::<M>(k, d) == child_lookup::<K, V, M>(lc, k, d));
                    assert(right.lookup::<M>(k, d) == child_lookup::<K, W, M>(rc, k, d));
                }
                assert forall|k: K| #[trigger] cll(k) is Some || #[trigger] crl(k) is Some implies hash_chunk(
                    <M as HasherBv<u64, K>>::hash_of(k),
                    d,
                ) == p by {
                    if cll(k) is Some {
                        assert(lc[p].lookup::<M>(k, d + 1) is Some);
                    } else {
                        assert(rc[p].lookup::<M>(k, d + 1) is Some);
                    }
                }
            }
            let jr: Option<(TransmuteResult<S, X, R>, Ghost<Map<K, MapTransmuteResult<S, X, R>>>)> = match lchild {
                Some(ln) => match rchild {
                    Some(rn) => {
                        proof {
                            self.lemma_joint_transmute_step::<M, W, S, X, R, B, LF, RF>(*right, *both_op, *left_op, *right_op, d, p);
                        }
                        let (t, couts) = ln.transmute_with_transmuted::<M, W, S, X, R, RO, B, LF, RF>(
                            rn,
                            reduce_op,
                            both_op,
                            left_op,
                            right_op,
                            depth + 1,
                        );
                        proof {
                            ln.lemma_size_view::<M>(d + 1);
                            rn.lemma_size_view::<M>(d + 1);
                            assert(node_lookup::<K, V, M>(*ln, d + 1) =~= cll);
                            assert(node_lookup::<K, W, M>(*rn, d + 1) =~= crl);
                            assert(couts@.dom() =~= keys_below::<K, V, W, M>(*ln, *rn, d + 1)) by {
                                assert forall|k: K| #[trigger] couts@.dom().contains(k) == keys_below::<K, V, W, M>(
                                    *ln,
                                    *rn,
                                    d + 1,
                                ).contains(k) by {
                                    assert(cll(k) == ln.lookup::<M>(k, d + 1));
                                    assert(crl(k) == rn.lookup::<M>(k, d + 1));
                                }
                            }
                        }
                        proof {
                            assert(couts@.dom().finite());
                            assert(t.node() matches Some(n) ==> n.size_of() <= couts@.dom().len());
                            assert(pair_reduced_at(*reduce_op, jpred, jot, cll, crl, t.reduced()));
                        }
                        Some((t, couts))
                    },
                    None => {
                        proof {
                            self.lemma_joint_transmute_side::<M, W, S, X, R, B, LF, RF>(*right, *both_op, *left_op, *right_op, d, p, true);
                        }
                        let (t, couts) = ln.transmute::<S, X, R, RO, LF, M>(reduce_op, left_op, depth + 1);
                        proof {
                            assert(node_lookup::<K, V, M>(*ln, d + 1) =~= cll);
                            lemma_joint_transmute_reduced_side::<K, V, W, S, X, R, RO, B, LF, RF>(
                                *reduce_op,
                                *both_op,
                                *left_op,
                                *right_op,
                                cll,
                                crl,
                                t.reduced(),
                                true,
                            );
                            lemma_joint_transmute_one_side::<K, V, W, S, X, R, B, LF, RF>(
                                *both_op,
                                *left_op,
                                *right_op,
                                cll,
                                crl,
                                opt_lookup::<S, X, M>(t.node(), d + 1),
                                couts@,
                                true,
                            );
                            ln.lemma_size_view::<M>(d + 1);
                            assert(couts@.dom() =~= ln.view_at::<M>(d + 1).dom()) by {
                                assert forall|k: K| #[trigger] couts@.dom().contains(k) == ln.view_at::<M>(d + 1).dom().contains(k) by {
                                    assert(cll(k) == ln.lookup::<M>(k, d + 1));
                                }
                            }
                        }
                        proof {
                            assert(couts@.dom().finite());
                            assert(t.node() matches Some(n) ==> n.size_of() <= couts@.dom().len());
                            assert(pair_reduced_at(*reduce_op, jpred, jot, cll, crl, t.reduced()));
                        }
                        Some((t, couts))
                    },
                },
                None => match rchild {
                    Some(rn) => {
                        proof {
                            self.lemma_joint_transmute_side::<M, W, S, X, R, B, LF, RF>(*right, *both_op, *left_op, *right_op, d, p, false);
                        }
                        let (t, couts) = rn.transmute::<S, X, R, RO, RF, M>(reduce_op, right_op, depth + 1);
                        proof {
                            assert(node_lookup::<K, W, M>(*rn, d + 1) =~= crl);
                            lemma_joint_transmute_reduced_side::<K, V, W, S, X, R, RO, B, LF, RF>(
                                *reduce_op,
                                *both_op,
                                *left_op,
                                *right_op,
                                cll,
                                crl,
                                t.reduced(),
                                false,
                            );
                            lemma_joint_transmute_one_side::<K, V, W, S, X, R, B, LF, RF>(
                                *both_op,
                                *left_op,
                                *right_op,
                                cll,
                                crl,
                                opt_lookup::<S, X, M>(t.node(), d + 1),
                                couts@,
                                false,
                            );
                            rn.lemma_size_view::<M>(d + 1);
                            assert(couts@.dom() =~= rn.view_at::<M>(d + 1).dom()) by {
                                assert forall|k: K| #[trigger] couts@.dom().contains(k) == rn.view_at::<M>(d + 1).dom().contains(k) by {
                                    assert(crl(k) == rn.lookup::<M>(k, d + 1));
                                }
                            }
                        }
                        proof {
                            assert(couts@.dom().finite());
                            assert(t.node() matches Some(n) ==> n.size_of() <= couts@.dom().len());
                            assert(pair_reduced_at(*reduce_op, jpred, jot, cll, crl, t.reduced()));
                        }
                        Some((t, couts))
                    },
                    None => None,
                },
            };
            match jr {
                Some((t, couts)) => {
                    let ghost tn = t.node();
                    let (new_child, red): (Option<MNode<S, X>>, R) = match t {
                        TransmuteResult::C(cn, r) => (Some(MNode::C(cn)), r),
                        TransmuteResult::L(l, r) => (Some(MNode::L(l)), r),
                        TransmuteResult::S(s, r) => (Some(MNode::S(s)), r),
                        TransmuteResult::Removed(r) => (None, r),
                    };
                    let ghost pre_red_t = red_t;
                    reduced = reduce_op(&reduced, &red);
                    proof {
                        let at_p = Set::new(|k: K| hash_chunk(<M as HasherBv<u64, K>>::hash_of(k), d) == p);
                        assert(pre_outs.dom().disjoint(at_p));
                        assert(red == t.reduced());
                        red_t = lemma_pair_reduced_step(
                            *reduce_op,
                            jpred,
                            jot,
                            pl,
                            pr,
                            cll,
                            crl,
                            at_p,
                            pre_outs.dom(),
                            pre_red_t,
                            red,
                            reduced,
                        );
                        assert(couts@.dom() =~= lookup_keys(cll).union(lookup_keys(crl)));
                        assert(new_child == tn);
                        assert(couts@.dom().finite());
                        assert(tn matches Some(n) ==> n.size_of() <= couts@.dom().len());
                        outs = pre_outs.union_prefer_right(couts@);
                        assert forall|k: K| #[trigger] couts@.dom().contains(k) implies hash_chunk(
                            <M as HasherBv<u64, K>>::hash_of(k),
                            d,
                        ) == p && pl(k) == cll(k) && pr(k) == crl(k) by {
                            assert(cll(k) is Some || crl(k) is Some);
                        }
                        assert(pre_outs.dom().disjoint(couts@.dom())) by {
                            assert forall|k: K| pre_outs.dom().contains(k) implies !couts@.dom().contains(k) by {
                            }
                        }
                        vstd::set_lib::lemma_set_disjoint_lens(pre_outs.dom(), couts@.dom());
                        assert(outs.dom() =~= pre_outs.dom().union(couts@.dom()));
                        assert forall|k: K| #[trigger] outs.dom().contains(k) implies joint_transmute_gives(
                            *both_op,
                            *left_op,
                            *right_op,
                            k,
                            pl(k),
                            pr(k),
                            outs[k],
                        ) by {
                            if couts@.dom().contains(k) {
                                assert(joint_transmute_gives(*both_op, *left_op, *right_op, k, cll(k), crl(k), couts@[k]));
                            }
                        }
                        assert forall|k: K| #[trigger] outs.dom().contains(k) <==> (hash_chunk(
                            <M as HasherBv<u64, K>>::hash_of(k),
                            d,
                        ) < index + 1 && (pl(k) is Some || pr(k) is Some)) by {
                            if hash_chunk(<M as HasherBv<u64, K>>::hash_of(k), d) == p && (pl(k) is Some || pr(k) is Some) {
                                assert(pl(k) == cll(k) && pr(k) == crl(k));
                            }
                        }
                        assert(outs.dom().subset_of(all)) by {
                            assert forall|k: K| outs.dom().contains(k) implies #[trigger] all.contains(k) by {
                                assert(pl(k) is Some || pr(k) is Some);
                                assert(pl(k) == self.lookup::<M>(k, d));
                                assert(pr(k) == right.lookup::<M>(k, d));
                            }
                        }
                        vstd::set_lib::lemma_len_subset(outs.dom(), all);
                    }
                    match new_child {
                        Some(n) => {
                            let ghost nd = n.view_at::<M>(d + 1).dom();
                            proof {
                                n.lemma_size_view::<M>(d + 1);
                                assert forall|s: S| #[trigger] n.lookup::<M>(s, d + 1) is Some implies hash_chunk(
                                    <M as HasherBv<u64, S>>::hash_of(s),
                                    d,
                                ) == p by {
                                    assert(opt_lookup::<S, X, M>(tn, d + 1)(s) is Some);
                                    let k = choose|k: K| #[trigger]
                                        couts@.dom().contains(k) && couts@[k].new_entry() is Some && couts@[k].new_entry()->Some_0.0 == s;
                                    assert(joint_transmute_gives(*both_op, *left_op, *right_op, k, cll(k), crl(k), couts@[k]));
                                    assert(joint_transmute_gives(*both_op, *left_op, *right_op, k, pl(k), pr(k), couts@[k]));
                                }
                                assert(pre_keys.disjoint(nd)) by {
                                    assert forall|s: S| pre_keys.contains(s) implies !nd.contains(s) by {
                                        assert(child_lookup::<S, X, M>(pre_newc, s, d) is Some);
                                    }
                                }
                                vstd::set_lib::lemma_set_disjoint_lens(pre_keys, nd);
                            }
                            size = size + n.size();
                            let bit = u32::nth_bit(index).unwrap();
                            proof {
                                lemma_only_bit(32, p);
                                assert(!pre_bits[p]);
                            }
                            bits_t = bits_t.bit_insert(bit).unwrap();
                            values_t.push(n);
                            proof {
                                newc = pre_newc.insert(p, n);
                                keys = pre_keys.union(nd);
                                lemma_count_set_bit(pre_bits, p, p);
                                lemma_count_split(pre_bits, p);
                                lemma_count_zero(pre_bits.skip(p));
                                assert(bits_t.bit_seq() == pre_bits.update(p, true));
                                assert forall|q: int| #[trigger] newc.contains_key(q) implies values_t@[rank(
                                    bits_t.bit_seq(),
                                    q,
                                ) as int] == newc[q] by {
                                    lemma_count_set_bit(pre_bits, p, q);
                                    if q != p {
                                        lemma_rank_lt_count(pre_bits, q);
                                    }
                                }
                                assert forall|s: S| #[trigger] keys.contains(s) <==> child_lookup::<S, X, M>(newc, s, d) is Some by {
                                    if hash_chunk(<M as HasherBv<u64, S>>::hash_of(s), d) == p {
                                        if pre_keys.contains(s) {
                                            assert(child_lookup::<S, X, M>(pre_newc, s, d) is Some);
                                        }
                                    } else {
                                        assert(child_lookup::<S, X, M>(newc, s, d) == child_lookup::<S, X, M>(pre_newc, s, d));
                                    }
                                }
                            }
                        },
                        None => {},
                    }
                    proof {
                        assert forall|k: K| #[trigger] outs.dom().contains(k) && outs[k].new_entry() is Some implies child_lookup::<
                            S,
                            X,
                            M,
                        >(newc, outs[k].new_entry()->Some_0.0, d) == Some(outs[k].new_entry()->Some_0.1) by {
                            let f = outs[k].new_entry()->Some_0;
                            assert(joint_transmute_gives(*both_op, *left_op, *right_op, k, pl(k), pr(k), outs[k]));
                            assert(<M as HasherBv<u64, S>>::hash_of(f.0) == <M as HasherBv<u64, K>>::hash_of(k));
                            if couts@.dom().contains(k) {
                                assert(opt_lookup::<S, X, M>(tn, d + 1)(f.0) == Some(f.1));
                            } else {
                                assert(child_lookup::<S, X, M>(pre_newc, f.0, d) == Some(f.1));
                            }
                        }
                        assert forall|s: S| #[trigger] child_lookup::<S, X, M>(newc, s, d) is Some implies exists|k: K| #[trigger]
                            outs.dom().contains(k) && outs[k].new_entry() is Some && outs[k].new_entry()->Some_0.0 == s by {
                            if hash_chunk(<M as HasherBv<u64, S>>::hash_of(s), d) == p {
                                assert(opt_lookup::<S, X, M>(tn, d + 1)(s) is Some);
                                let k = choose|k: K| #[trigger]
                                    couts@.dom().contains(k) && couts@[k].new_entry() is Some && couts@[k].new_entry()->Some_0.0 == s;
                                assert(outs.dom().contains(k));
                            } else {
                                assert(child_lookup::<S, X, M>(pre_newc, s, d) is Some);
                                let k = choose|k: K| #[trigger]
                                    pre_outs.dom().contains(k) && pre_outs[k].new_entry() is Some && pre_outs[k].new_entry()->Some_0.0 == s;
                                assert(outs.dom().contains(k));
                                assert(!couts@.dom().contains(k));
                            }
                        }
                    }
                },
                None => {
                    proof {
                        assert forall|k: K| #[trigger] outs.dom().contains(k) <==> (hash_chunk(
                            <M as HasherBv<u64, K>>::hash_of(k),
                            d,
                        ) < index + 1 && (pl(k) is Some || pr(k) is Some)) by {
                            if hash_chunk(<M as HasherBv<u64, K>>::hash_of(k), d) == p {
                                assert(pl(k) == cll(k) && pr(k) == crl(k));
                            }
                        }
                    }
                },
            }
            index = index + 1;
        }
        proof {
            assert forall|k: K| #[trigger] outs.dom().contains(k) <==> (pl(k) is Some || pr(k) is Some) by {
                lemma_hash_chunk_range(<M as HasherBv<u64, K>>::hash_of(k), d);
            }
            vstd::set_lib::lemma_len_subset(outs.dom(), all);
            assert(outs.dom() =~= lookup_keys(pl).union(lookup_keys(pr)));
            assert(red_t.combines(*reduce_op));
        }
        if values_t.len() == 0 {
            proof {
                lemma_count_zero(bits_t.bit_seq());
                assert forall|s: S| #[trigger] child_lookup::<S, X, M>(newc, s, d) is None by {
                    lemma_hash_chunk_range(<M as HasherBv<u64, S>>::hash_of(s), d);
                    let q = hash_chunk(<M as HasherBv<u64, S>>::hash_of(s), d);
                    if newc.contains_key(q) {
                        assert(bits_t.bit_seq()[q]);
                    }
                }
                assert(opt_lookup::<S, X, M>(None, d) =~= |s: S| child_lookup::<S, X, M>(newc, s, d));
            }
            return (TransmuteResult::Removed(reduced), Ghost(outs));
        }
        if values_t.len() == 1 {
            let ghost q = crate::bitseq::lemma_rank_onto(bits_t.bit_seq(), 0);
            proof {
                assert(newc.contains_key(q));
                assert forall|q2: int| #[trigger] newc.contains_key(q2) implies q2 == q by {
                    if q2 != q {
                        crate::bitseq::lemma_rank_injective(bits_t.bit_seq(), q, q2);
                        lemma_rank_lt_count(bits_t.bit_seq(), q2);
                    }
                }
            }
            match &values_t[0] {
                MNode::C(_) => {},
                MNode::L(l) => {
                    proof {
                        assert(MNode::L(*l) == newc[q]);
                        MNode::lemma_sole_child::<M>(newc, q, d);
                        assert(opt_lookup::<S, X, M>(Some(MNode::L(*l)), d) =~= |s: S| child_lookup::<S, X, M>(newc, s, d));
                        assert(newc[q].size_of() == keys.len()) by {
                            newc[q].lemma_size_view::<M>(d);
                            assert forall|s2: S| #[trigger] newc[q].view_at::<M>(d).dom().contains(s2) == keys.contains(s2) by {
                                assert(lookup_in::<S, X, M>(Some(newc[q]), s2, d) == child_lookup::<S, X, M>(newc, s2, d));
                            }
                            assert(newc[q].view_at::<M>(d).dom() =~= keys);
                        }
                    }
                    return (TransmuteResult::L(l.clone(), reduced), Ghost(outs));
                },
                MNode::S(s) => {
                    proof {
                        assert(MNode::S(*s) == newc[q]);
                        MNode::lemma_sole_child::<M>(newc, q, d);
                        assert(opt_lookup::<S, X, M>(Some(MNode::S(*s)), d) =~= |s2: S| child_lookup::<S, X, M>(newc, s2, d));
                        assert(newc[q].size_of() == keys.len()) by {
                            newc[q].lemma_size_view::<M>(d);
                            assert forall|s2: S| #[trigger] newc[q].view_at::<M>(d).dom().contains(s2) == keys.contains(s2) by {
                                assert(lookup_in::<S, X, M>(Some(newc[q]), s2, d) == child_lookup::<S, X, M>(newc, s2, d));
                            }
                            assert(newc[q].view_at::<M>(d).dom() =~= keys);
                        }
                    }
                    return (TransmuteResult::S(s.clone(), reduced), Ghost(outs));
                },
            }
        }
        match new_bit_indexed_array(bits_t, values_t, size) {
            Ok(arr) => {
                let cn = CNode::new(arr);
                proof {
                    assert(cn.children() =~= newc);
                    let n = MNode::C(cn);
                    assert forall|s: S| #[trigger] n.lookup::<M>(s, d) == child_lookup::<S, X, M>(newc, s, d) by {
                    }
                    assert(n.view_at::<M>(d).dom() =~= keys);
                    assert(opt_lookup::<S, X, M>(Some(n), d) =~= |s: S| child_lookup::<S, X, M>(newc, s, d));
                }
                (TransmuteResult::C(cn, reduced), Ghost(outs))
            },
            Err(_) => {
                proof {
                    assert(false);
                }
                (TransmuteResult::Removed(reduced), Ghost(outs))
            },
        }
    }
}

// ----------------------------------------------------------------------------
// Transformation with a transmuted side whose keys may change
// ----------------------------------------------------------------------------

/// Each operation of `transform_with_transmuted` may be run on the entries that
/// the lookups `ll` and `rl` find and that it is run on.
pub open spec fn transform_transmute_accepts<K, V, W, R, B, LF, RF>(
    both_op: MapTransform<R, B>,
    left_op: MapTransform<R, LF>,
    right_op: MapTransmute<R, RF>,
    ll: spec_fn(K) -> Option<V>,
    rl: spec_fn(K) -> Option<W>,
) -> bool where
    B: Fn(&K, &V, &K, &W) -> MapTransformResult<V, R>,
    LF: Fn(&K, &V) -> MapTransformResult<V, R>,
    RF: Fn(&K, &W) -> MapTransmuteResult<K, V, R>,
 {
    forall|k: K|
        #![trigger ll(k)]
        #![trigger rl(k)]
        transform_with_transmuted_accepts_entry(both_op, left_op, right_op, k, ll(k), rl(k))
}

/// Every result that `right_op` may give for an entry that `rl` finds and `ll`
/// does not keeps the key's hash and makes a key that `ll` does not find, and
/// the results for distinct keys make distinct keys.
pub open spec fn transform_transmute_fits<K, V, W, R, RF, M: HasherBv<u64, K>>(
    right_op: MapTransmute<R, RF>,
    ll: spec_fn(K) -> Option<V>,
    rl: spec_fn(K) -> Option<W>,
) -> bool where RF: Fn(&K, &W) -> MapTransmuteResult<K, V, R> {
    &&& forall|k: K, r: MapTransmuteResult<K, V, R>|
        #![trigger right_op.gives(k, rl(k)->Some_0, r)]
        ll(k) is None && rl(k) is Some && right_op.gives(k, rl(k)->Some_0, r) && r.new_entry() is Some ==> M::hash_of(
            r.new_entry()->Some_0.0,
        ) == M::hash_of(k) && ll(r.new_entry()->Some_0.0) is None
    &&& forall|k1: K, k2: K, r1: MapTransmuteResult<K, V, R>, r2: MapTransmuteResult<K, V, R>|
        #![trigger right_op.gives(k1, rl(k1)->Some_0, r1), right_op.gives(k2, rl(k2)->Some_0, r2)]
        ll(k1) is None && rl(k1) is Some && ll(k2) is None && rl(k2) is Some && k1 != k2 && right_op.gives(
            k1,
            rl(k1)->Some_0,
            r1,
        ) && right_op.gives(k2, rl(k2)->Some_0, r2) && r1.new_entry() is Some && r2.new_entry() is Some
            ==> r1.new_entry()->Some_0.0 != r2.new_entry()->Some_0.0
}

/// `nl` is what `transform_with_transmuted` makes of the entries that `ll` and
/// `rl` find, with the results `outs` of `right_op`, one for each key that `rl`
/// finds and `ll` does not.
pub open spec fn transform_transmuted_lookups<K, V, W, R, B, LF, RF>(
    both_op: MapTransform<R, B>,
    left_op: MapTransform<R, LF>,
    right_op: MapTransmute<R, RF>,
    ll: spec_fn(K) -> Option<V>,
    rl: spec_fn(K) -> Option<W>,
    nl: spec_fn(K) -> Option<V>,
    outs: Map<K, MapTransmuteResult<K, V, R>>,
) -> bool where
    B: Fn(&K, &V, &K, &W) -> MapTransformResult<V, R>,
    LF: Fn(&K, &V) -> MapTransformResult<V, R>,
    RF: Fn(&K, &W) -> MapTransmuteResult<K, V, R>,
 {
    &&& forall|k: K| #[trigger] outs.dom().contains(k) <==> (ll(k) is None && rl(k) is Some)
    &&& forall|k: K| #[trigger] outs.dom().contains(k) ==> right_op.gives(k, rl(k)->Some_0, outs[k])
    &&& forall|k: K|
        #![trigger ll(k)]
        #![trigger nl(k)]
        ll(k) is Some ==> transform_with_transmuted_left_entry(both_op, left_op, k, ll(k)->Some_0, rl(k), nl(k))
    &&& forall|k: K| #[trigger]
        outs.dom().contains(k) && outs[k].new_entry() is Some ==> nl(outs[k].new_entry()->Some_0.0) == Some(
            outs[k].new_entry()->Some_0.1,
        )
    &&& forall|s: K| #[trigger]
        nl(s) is Some && ll(s) is None ==> exists|k: K| #[trigger]
            outs.dom().contains(k) && outs[k].new_entry() is Some && outs[k].new_entry()->Some_0.0 == s
}

/// One more result of `right_op`, for a key of the right side alone without one
/// yet, keeps the list of entries `os` in step: the new entry goes at the back,
/// with a key of its own, and leaves the entries of the left keys as they are.
proof fn lemma_push_transmuted<K, V, W, R, B, LF, RF, M: HasherBv<u64, K>>(
    both_op: MapTransform<R, B>,
    left_op: MapTransform<R, LF>,
    right_op: MapTransmute<R, RF>,
    ll: spec_fn(K) -> Option<V>,
    rl: spec_fn(K) -> Option<W>,
    done: Set<K>,
    outs: Map<K, MapTransmuteResult<K, V, R>>,
    os: Seq<(K, V)>,
    os2: Seq<(K, V)>,
    key: K,
    o: MapTransmuteResult<K, V, R>,
) where
    B: Fn(&K, &V, &K, &W) -> MapTransformResult<V, R>,
    LF: Fn(&K, &V) -> MapTransformResult<V, R>,
    RF: Fn(&K, &W) -> MapTransmuteResult<K, V, R>,

    requires
        transform_transmute_fits::<K, V, W, R, RF, M>(right_op, ll, rl),
        forall|k: K| #[trigger] done.contains(k) <==> ll(k) is Some,
        ll(key) is None,
        rl(key) is Some,
        !outs.dom().contains(key),
        right_op.gives(key, rl(key)->Some_0, o),
        forall|k: K| #[trigger] outs.dom().contains(k) ==> ll(k) is None && rl(k) is Some,
        forall|k: K| #[trigger] outs.dom().contains(k) ==> right_op.gives(k, rl(k)->Some_0, outs[k]),
        outs.dom().finite(),
        entries_keys(os).no_duplicates(),
        forall|k: K| #[trigger] entries_lookup(os, k) is Some && ll(k) is None ==> exists|k0: K| #[trigger]
            outs.dom().contains(k0) && outs[k0].new_entry() is Some && outs[k0].new_entry()->Some_0.0 == k,
        os2 == match o.new_entry() {
            Some(f) => os.push(f),
            None => os,
        },
    ensures
        entries_keys(os2).no_duplicates(),
        os2.len() <= os.len() + 1,
        outs.insert(key, o).dom().finite(),
        outs.insert(key, o).dom().len() == outs.dom().len() + 1,
        forall|k: K| #[trigger] done.contains(k) ==> entries_lookup(os2, k) == entries_lookup(os, k),
        forall|k: K| #[trigger]
            outs.dom().contains(k) && outs[k].new_entry() is Some && entries_lookup(os, outs[k].new_entry()->Some_0.0)
                == Some(outs[k].new_entry()->Some_0.1) ==> entries_lookup(os2, outs[k].new_entry()->Some_0.0) == Some(
                outs[k].new_entry()->Some_0.1,
            ),
        o.new_entry() is Some ==> entries_lookup(os2, o.new_entry()->Some_0.0) == Some(o.new_entry()->Some_0.1),
        forall|k: K| #[trigger] entries_lookup(os2, k) is Some && ll(k) is None ==> exists|k0: K| #[trigger]
            outs.insert(key, o).dom().contains(k0) && outs.insert(key, o)[k0].new_entry() is Some && outs.insert(
                key,
                o,
            )[k0].new_entry()->Some_0.0 == k,
{
    let outs2 = outs.insert(key, o);
    assert(outs2.dom() == outs.dom().insert(key));
    match o.new_entry() {
        Some(f) => {
            assert(ll(f.0) is None);
            assert(!entries_keys(os).contains(f.0)) by {
                lemma_entries_lookup_some(os, f.0);
                if entries_lookup(os, f.0) is Some {
                    let k0 = choose|k0: K| #[trigger]
                        outs.dom().contains(k0) && outs[k0].new_entry() is Some && outs[k0].new_entry()->Some_0.0 == f.0;
                    assert(k0 != key);
                    assert(right_op.gives(k0, rl(k0)->Some_0, outs[k0]));
                }
            }
            lemma_push_keys(os, f);
            assert forall|s: K| #[trigger] entries_lookup(os2, s) == if entries_lookup(os, s) is Some {
                entries_lookup(os, s)
            } else if f.0 == s {
                Some(f.1)
            } else {
                None
            } by {
                lemma_push_lookup(os, f, s);
            }
            lemma_entries_lookup_some(os, f.0);
            assert forall|k: K| #[trigger] done.contains(k) implies entries_lookup(os2, k) == entries_lookup(os, k) by {
                assert(ll(k) is Some);
            }
            assert forall|s: K| #[trigger] entries_lookup(os2, s) is Some && ll(s) is None implies exists|k0: K| #[trigger]
                outs2.dom().contains(k0) && outs2[k0].new_entry() is Some && outs2[k0].new_entry()->Some_0.0 == s by {
                if entries_lookup(os, s) is Some {
                    let k0 = choose|k0: K| #[trigger]
                        outs.dom().contains(k0) && outs[k0].new_entry() is Some && outs[k0].new_entry()->Some_0.0 == s;
                    assert(outs2.dom().contains(k0) && outs2[k0] == outs[k0]);
                } else {
                    assert(outs2.dom().contains(key));
                }
            }
        },
        None => {
            assert forall|s: K| #[trigger] entries_lookup(os2, s) is Some && ll(s) is None implies exists|k0: K| #[trigger]
                outs2.dom().contains(k0) && outs2[k0].new_entry() is Some && outs2[k0].new_entry()->Some_0.0 == s by {
                let k0 = choose|k0: K| #[trigger]
                    outs.dom().contains(k0) && outs[k0].new_entry() is Some && outs[k0].new_entry()->Some_0.0 == s;
                assert(outs2.dom().contains(k0) && outs2[k0] == outs[k0]);
            }
        },
    }
}

impl<K, V> MNode<K, V> {
    /// `transform_with_transmuted` on two single-entry or list nodes of one hash,
    /// whose entries gave the list `os` and the results `outs`, makes the node
    /// `new` of those entries: well formed, no larger than their keys.
    proof fn lemma_transform_transmute_flat_node<M: HasherBv<u64, K>, W, R, B, LF, RF>(
        self,
        right: MNode<K, W>,
        both_op: MapTransform<R, B>,
        left_op: MapTransform<R, LF>,
        right_op: MapTransmute<R, RF>,
        new: Option<MNode<K, V>>,
        os: Seq<(K, V)>,
        done: Set<K>,
        outs: Map<K, MapTransmuteResult<K, V, R>>,
        d: nat,
    ) where
        B: Fn(&K, &V, &K, &W) -> MapTransformResult<V, R>,
        LF: Fn(&K, &V) -> MapTransformResult<V, R>,
        RF: Fn(&K, &W) -> MapTransmuteResult<K, V, R>,

        requires
            self is S || self is L,
            right is S || right is L,
            self.wf::<M>(d),
            right.wf::<M>(d),
            self.flat_hash::<M>() == right.flat_hash::<M>(),
            transform_transmute_fits::<K, V, W, R, RF, M>(right_op, node_lookup::<K, V, M>(self, d), node_lookup::<K, W, M>(right, d)),
            match new {
                Some(n) => {
                    &&& n is S || n is L
                    &&& n.flat_entries() == os
                    &&& n matches MNode::L(l) ==> l.sizes_ok()
                },
                None => os.len() == 0,
            },
            entries_keys(os).no_duplicates(),
            done.finite(),
            outs.dom().finite(),
            os.len() <= done.len() + outs.dom().len(),
            forall|k: K| #[trigger] done.contains(k) <==> node_lookup::<K, V, M>(self, d)(k) is Some,
            forall|k: K| #[trigger]
                outs.dom().contains(k) <==> (node_lookup::<K, V, M>(self, d)(k) is None && node_lookup::<K, W, M>(right, d)(k) is Some),
            forall|k: K| #[trigger]
                outs.dom().contains(k) ==> right_op.gives(k, node_lookup::<K, W, M>(right, d)(k)->Some_0, outs[k]),
            forall|k: K| #[trigger]
                done.contains(k) ==> transform_with_transmuted_left_entry(
                    both_op,
                    left_op,
                    k,
                    node_lookup::<K, V, M>(self, d)(k)->Some_0,
                    node_lookup::<K, W, M>(right, d)(k),
                    entries_lookup(os, k),
                ),
            forall|k: K| #[trigger]
                outs.dom().contains(k) && outs[k].new_entry() is Some ==> entries_lookup(os, outs[k].new_entry()->Some_0.0)
                    == Some(outs[k].new_entry()->Some_0.1),
            forall|k: K| #[trigger]
                entries_lookup(os, k) is Some && node_lookup::<K, V, M>(self, d)(k) is None ==> exists|k0: K| #[trigger]
                    outs.dom().contains(k0) && outs[k0].new_entry() is Some && outs[k0].new_entry()->Some_0.0 == k,
        ensures
            new matches Some(n) ==> n.wf::<M>(d) && n.size_of() <= keys_below::<K, V, W, M>(self, right, d).len(),
            transform_transmuted_lookups(
                both_op,
                left_op,
                right_op,
                node_lookup::<K, V, M>(self, d),
                node_lookup::<K, W, M>(right, d),
                opt_lookup::<K, V, M>(new, d),
                outs,
            ),
    {
        let ll = node_lookup::<K, V, M>(self, d);
        let rl = node_lookup::<K, W, M>(right, d);
        assert forall|s: K| #[trigger] opt_lookup::<K, V, M>(new, d)(s) == entries_lookup(os, s) by {
            match new {
                Some(n) => {
                    n.lemma_flat_lookup::<M>(s, d);
                },
                None => {
                    assert(os.len() == 0);
                },
            }
        }
        self.lemma_flat::<M>(d, d);
        right.lemma_flat::<M>(d, d);
        assert(done.disjoint(outs.dom()));
        vstd::set_lib::lemma_set_disjoint_lens(done, outs.dom());
        assert(done.union(outs.dom()).subset_of(keys_below::<K, V, W, M>(self, right, d))) by {
            assert forall|k: K| done.union(outs.dom()).contains(k) implies #[trigger] keys_below::<K, V, W, M>(
                self,
                right,
                d,
            ).contains(k) by {
                assert(ll(k) == self.lookup::<M>(k, d));
                assert(rl(k) == right.lookup::<M>(k, d));
            }
        }
        self.lemma_size_view::<M>(d);
        right.lemma_size_view::<M>(d);
        vstd::set_lib::lemma_len_subset(done.union(outs.dom()), keys_below::<K, V, W, M>(self, right, d));
        assert forall|i: int| 0 <= i < os.len() implies #[trigger] M::hash_of(os[i].0) == self.flat_hash::<M>() by {
            assert(entries_keys(os)[i] == os[i].0);
            lemma_entries_lookup_some(os, os[i].0);
            if ll(os[i].0) is Some {
                assert(self.lookup::<M>(os[i].0, d) is Some);
            } else {
                let k = choose|k: K| #[trigger]
                    outs.dom().contains(k) && outs[k].new_entry() is Some && outs[k].new_entry()->Some_0.0 == os[i].0;
                assert(right_op.gives(k, rl(k)->Some_0, outs[k]));
                assert(right.lookup::<M>(k, d) is Some);
            }
        }
        match new {
            Some(MNode::L(l)) => {
                l.lemma_len();
                assert(M::hash_of(os[0].0) == self.flat_hash::<M>());
            },
            _ => {},
        }
        assert forall|k: K| #![trigger ll(k)] #![trigger opt_lookup::<K, V, M>(new, d)(k)] ll(k) is Some implies transform_with_transmuted_left_entry(
            both_op,
            left_op,
            k,
            ll(k)->Some_0,
            rl(k),
            opt_lookup::<K, V, M>(new, d)(k),
        ) by {
            assert(done.contains(k));
        }
    }

    /// `transform_with_transmuted` on two single-entry or list nodes leaves the
    /// left one as it is when each of its keys may hold what it holds and no
    /// transmuted entry is kept.
    proof fn lemma_transform_transmute_flat_same<M: HasherBv<u64, K>, W, R, B, LF, RF>(
        self,
        right: MNode<K, W>,
        both_op: MapTransform<R, B>,
        left_op: MapTransform<R, LF>,
        right_op: MapTransmute<R, RF>,
        done: Set<K>,
        outs: Map<K, MapTransmuteResult<K, V, R>>,
        d: nat,
    ) where
        B: Fn(&K, &V, &K, &W) -> MapTransformResult<V, R>,
        LF: Fn(&K, &V) -> MapTransformResult<V, R>,
        RF: Fn(&K, &W) -> MapTransmuteResult<K, V, R>,

        requires
            self is S || self is L,
            self.wf::<M>(d),
            right.wf::<M>(d),
            forall|k: K| #[trigger] done.contains(k) <==> node_lookup::<K, V, M>(self, d)(k) is Some,
            forall|k: K| #[trigger]
                outs.dom().contains(k) <==> (node_lookup::<K, V, M>(self, d)(k) is None && node_lookup::<K, W, M>(right, d)(k) is Some),
            forall|k: K| #[trigger]
                outs.dom().contains(k) ==> right_op.gives(k, node_lookup::<K, W, M>(right, d)(k)->Some_0, outs[k]),
            forall|k: K| #[trigger] outs.dom().contains(k) ==> outs[k].new_entry() is None,
            forall|k: K| #[trigger]
                done.contains(k) ==> transform_with_transmuted_left_entry(
                    both_op,
                    left_op,
                    k,
                    node_lookup::<K, V, M>(self, d)(k)->Some_0,
                    node_lookup::<K, W, M>(right, d)(k),
                    node_lookup::<K, V, M>(self, d)(k),
                ),
        ensures
            self.size_of() <= keys_below::<K, V, W, M>(self, right, d).len(),
            transform_transmuted_lookups(
                both_op,
                left_op,
                right_op,
                node_lookup::<K, V, M>(self, d),
                node_lookup::<K, W, M>(right, d),
                opt_lookup::<K, V, M>(Some(self), d),
                outs,
            ),
    {
        let ll = node_lookup::<K, V, M>(self, d);
        assert forall|s: K| #[trigger] opt_lookup::<K, V, M>(Some(self), d)(s) == ll(s) by {
        }
        self.lemma_size_view::<M>(d);
        right.lemma_size_view::<M>(d);
        vstd::set_lib::lemma_len_subset(self.view_at::<M>(d).dom(), keys_below::<K, V, W, M>(self, right, d));
        assert forall|k: K| #![trigger ll(k)] #![trigger opt_lookup::<K, V, M>(Some(self), d)(k)] ll(k) is Some implies transform_with_transmuted_left_entry(
            both_op,
            left_op,
            k,
            ll(k)->Some_0,
            node_lookup::<K, W, M>(right, d)(k),
            opt_lookup::<K, V, M>(Some(self), d)(k),
        ) by {
            assert(done.contains(k));
        }
    }
}

impl<K: Key, V> MNode<K, V> {
    /// `transform_with_transmuted` on two single-entry or list nodes whose keys
    /// all have one hash, entry by entry: the left entries first, each with its
    /// right partner if there is one, then the right entries without a partner.
    pub fn transform_with_transmuted_flat<
        M: HasherBv<u64, K>,
        W,
        R: Clone + Default,
        RO: Fn(&R, &R) -> R,
        B: Fn(&K, &V, &K, &W) -> MapTransformResult<V, R>,
        LF: Fn(&K, &V) -> MapTransformResult<V, R>,
        RF: Fn(&K, &W) -> MapTransmuteResult<K, V, R>,
    >(
        &self,
        right: &MNode<K, W>,
        reduce_op: &RO,
        both_op: &MapTransform<R, B>,
        left_op: &MapTransform<R, LF>,
        right_op: &MapTransmute<R, RF>,
        depth: usize,
    ) -> (res: (TransformResult<K, V, R>, Ghost<Map<K, MapTransmuteResult<K, V, R>>>))
        requires
            self is S || self is L,
            right is S || right is L,
            self.wf::<M>(depth as nat),
            right.wf::<M>(depth as nat),
            self.flat_hash::<M>() == right.flat_hash::<M>(),
            transform_transmute_accepts(
                *both_op,
                *left_op,
                *right_op,
                node_lookup::<K, V, M>(*self, depth as nat),
                node_lookup::<K, W, M>(*right, depth as nat),
            ),
            transform_transmute_fits::<K, V, W, R, RF, M>(
                *right_op,
                node_lookup::<K, V, M>(*self, depth as nat),
                node_lookup::<K, W, M>(*right, depth as nat),
            ),
            reduces_all(*reduce_op),
        ensures
            !(res.0 is C),
            res.0.node_after(*self) matches Some(n) ==> n.wf::<M>(depth as nat) && n.size_of() <= keys_below::<
                K,
                V,
                W,
                M,
            >(*self, *right, depth as nat).len(),
            transform_transmuted_lookups(
                *both_op,
                *left_op,
                *right_op,
                node_lookup::<K, V, M>(*self, depth as nat),
                node_lookup::<K, W, M>(*right, depth as nat),
                opt_lookup::<K, V, M>(res.0.node_after(*self), depth as nat),
                res.1@,
            ),
            pair_reduced_at(
                *reduce_op,
                transform_transmute_pred(*both_op, *left_op, *right_op),
                transform_transmute_others(*left_op, *right_op),
                node_lookup::<K, V, M>(*self, depth as nat),
                node_lookup::<K, W, M>(*right, depth as nat),
                res.0.reduced(),
            ),
    {
        let ghost d = depth as nat;
        let ghost les = self.flat_entries();
        let ghost res_ = right.flat_entries();
        let ghost ll = node_lookup::<K, V, M>(*self, d);
        let ghost rl = node_lookup::<K, W, M>(*right, d);
        proof {
            assert forall|k: K| #[trigger] ll(k) == entries_lookup(les, k) by {
                self.lemma_flat_lookup::<M>(k, d);
            }
            assert forall|k: K| #[trigger] rl(k) == entries_lookup(res_, k) by {
                right.lemma_flat_lookup::<M>(k, d);
            }
            if let MNode::S(s) = self {
                assert(entries_keys(les) =~= seq![s.spec_key()]);
            }
            if let MNode::S(s) = right {
                assert(entries_keys(res_) =~= seq![s.spec_key()]);
            }
        }
        let lefts = self.snodes();
        let rights = right.snodes();
        let mut out: Vec<Arc<SNode<K, V>>> = Vec::new();
        let mut unchanged_l = true;
        let mut reduced = R::default();
        let ghost mut done: Set<K> = Set::empty();
        let ghost jok = pair_entries_ok(transform_transmute_pred(*both_op, *left_op, *right_op), ll, rl);
        let ghost jot = transform_transmute_others(*left_op, *right_op);
        let ghost mut red_t: Reduction<K, R> = Reduction::Other(reduced);
        proof {
            assert(entries_keys(snode_entries(out@)) =~= Seq::<K>::empty());
            lemma_fits_other(reduced, *reduce_op, jok, jot);
        }
        let mut i: usize = 0;
        while i < lefts.len()
            invariant
                i <= lefts.len(),
                snode_entries(lefts@) == les,
                snode_entries(rights@) == res_,
                entries_keys(les).no_duplicates(),
                entries_keys(res_).no_duplicates(),
                forall|k: K| #[trigger] ll(k) == entries_lookup(les, k),
                forall|k: K| #[trigger] rl(k) == entries_lookup(res_, k),
                transform_transmute_accepts(*both_op, *left_op, *right_op, ll, rl),
                reduces_all(*reduce_op),
                jok == pair_entries_ok(transform_transmute_pred(*both_op, *left_op, *right_op), ll, rl),
                jot == transform_transmute_others(*left_op, *right_op),
                red_t.value() == reduced,
                reduction_fits(red_t, *reduce_op, done, jok, jot),
                entries_keys(snode_entries(out@)).no_duplicates(),
                done.finite(),
                out@.len() <= done.len(),
                forall|k: K| #[trigger] entries_lookup(snode_entries(out@), k) is Some ==> done.contains(k),
                forall|k: K| #[trigger] done.contains(k) ==> ll(k) is Some,
                forall|j: int| i <= j < les.len() ==> !done.contains(#[trigger] les[j].0),
                forall|j: int| 0 <= j < i ==> done.contains(#[trigger] les[j].0),
                forall|k: K| #[trigger]
                    done.contains(k) ==> transform_with_transmuted_left_entry(
                        *both_op,
                        *left_op,
                        k,
                        ll(k)->Some_0,
                        rl(k),
                        entries_lookup(snode_entries(out@), k),
                    ),
                unchanged_l ==> forall|k: K| #[trigger]
                    done.contains(k) ==> transform_with_transmuted_left_entry(
                        *both_op,
                        *left_op,
                        k,
                        ll(k)->Some_0,
                        rl(k),
                        ll(k),
                    ),
            decreases lefts.len() - i,
        {
            let e = &lefts[i];
            let ghost key = e.spec_key();
            let ghost value = e.spec_value();
            let ghost os = snode_entries(out@);
            let ghost pre_done = done;
            let ghost mut pushed: Option<V> = None;
            proof {
                assert(les[i as int] == (key, value));
                lemma_entries_lookup_at(les, i as int);
                assert(ll(key) == Some(value));
                assert(!done.contains(key));
                assert(entries_lookup(os, key) is None);
                assert(transform_with_transmuted_accepts_entry(*both_op, *left_op, *right_op, key, ll(key), rl(key)));
            }
            match find_snode(&rights, e.key()) {
                Some(j) => {
                    let rn = &rights[j];
                    let ghost w = rn.spec_value();
                    proof {
                        assert(res_[j as int] == (key, w));
                        lemma_entries_lookup_at(res_, j as int);
                        assert(rl(key) == Some(w));
                    }
                    let t = both_op.call_transform_transmute(e.key(), e.value(), rn.key(), rn.value());
                    proof {
                        assert(both_op.gives_transform_transmute(key, value, key, w, t));
                    }
                    let r = match t {
                        MapTransformResult::Unchanged(r) => {
                            out.push(e.clone());
                            proof {
                                pushed = Some(value);
                            }
                            r
                        },
                        MapTransformResult::Transformed(v, r) => {
                            let sn = SNode::new(e.key().key_clone(), v);
                            proof {
                                pushed = Some(sn.spec_value());
                            }
                            out.push(sn);
                            unchanged_l = false;
                            r
                        },
                        MapTransformResult::Removed(r) => {
                            unchanged_l = false;
                            r
                        },
                    };
                    reduced = reduce_op(&reduced, &r);
                    proof {
                        if rl(key) is Some {
                            assert(both_op matches MapTransform::Generic(f) ==> f.ensures((&key, &value, &key, &rl(key)->Some_0), t));
                        } else {
                            assert(left_op matches MapTransform::Generic(f) ==> f.ensures((&key, &value), t));
                        }
                        assert(jok(key, r));
                        red_t = lemma_fits_add_entry(red_t, *reduce_op, pre_done, key, r, reduced, jok, jot);
                        assert(t.applied_to(value) == pushed);
                        assert(transform_with_transmuted_left_entry(*both_op, *left_op, key, value, rl(key), pushed));
                        if unchanged_l {
                            assert(t.applied_to(value) == Some(value));
                        }
                    }
                },
                None => {
                    proof {
                        lemma_entries_lookup_some(res_, key);
                        assert(rl(key) is None);
                    }
                    let t = left_op.call(e.key(), e.value());
                    proof {
                        assert(left_op.gives(key, value, t));
                    }
                    let r = match t {
                        MapTransformResult::Unchanged(r) => {
                            out.push(e.clone());
                            proof {
                                pushed = Some(value);
                            }
                            r
                        },
                        MapTransformResult::Transformed(v, r) => {
                            let sn = SNode::new(e.key().key_clone(), v);
                            proof {
                                pushed = Some(sn.spec_value());
                            }
                            out.push(sn);
                            unchanged_l = false;
                            r
                        },
                        MapTransformResult::Removed(r) => {
                            unchanged_l = false;
                            r
                        },
                    };
                    reduced = reduce_op(&reduced, &r);
                    proof {
                        if rl(key) is Some {
                            assert(both_op matches MapTransform::Generic(f) ==> f.ensures((&key, &value, &key, &rl(key)->Some_0), t));
                        } else {
                            assert(left_op matches MapTransform::Generic(f) ==> f.ensures((&key, &value), t));
                        }
                        assert(jok(key, r));
                        red_t = lemma_fits_add_entry(red_t, *reduce_op, pre_done, key, r, reduced, jok, jot);
                        assert(t.applied_to(value) == pushed);
                        assert(transform_with_transmuted_left_entry(*both_op, *left_op, key, value, rl(key), pushed));
                        if unchanged_l {
                            assert(t.applied_to(value) == Some(value));
                        }
                    }
                },
            }
            proof {
                done = pre_done.insert(key);
                match pushed {
                    Some(x) => {
                        assert(snode_entries(out@) =~= os.push((key, x)));
                        lemma_entries_lookup_some(os, key);
                        lemma_push_keys(os, (key, x));
                        assert forall|k: K| #[trigger] entries_lookup(snode_entries(out@), k) == if k == key {
                            pushed
                        } else {
                            entries_lookup(os, k)
                        } by {
                            lemma_push_lookup(os, (key, x), k);
                        }
                    },
                    None => {
                        assert(snode_entries(out@) =~= os);
                    },
                }
                assert forall|j: int| i + 1 <= j < les.len() implies !done.contains(#[trigger] les[j].0) by {
                    assert(entries_keys(les)[j] == les[j].0);
                    assert(entries_keys(les)[i as int] == les[i as int].0);
                }
            }
            i = i + 1;
        }
        proof {
            assert forall|k: K| #[trigger] done.contains(k) <==> ll(k) is Some by {
                lemma_entries_lookup_some(les, k);
                if ll(k) is Some {
                    let q = choose|q: int| 0 <= q < les.len() && les[q].0 == k && les[q].1 == entries_lookup(les, k)->Some_0;
                    assert(done.contains(les[q].0));
                }
            }
        }
        let ghost mut outs: Map<K, MapTransmuteResult<K, V, R>> = Map::empty();
        proof {
            assert(done.union(outs.dom()) =~= done);
        }
        let mut j: usize = 0;
        while j < rights.len()
            invariant
                j <= rights.len(),
                snode_entries(lefts@) == les,
                snode_entries(rights@) == res_,
                entries_keys(les).no_duplicates(),
                entries_keys(res_).no_duplicates(),
                forall|k: K| #[trigger] ll(k) == entries_lookup(les, k),
                forall|k: K| #[trigger] rl(k) == entries_lookup(res_, k),
                transform_transmute_accepts(*both_op, *left_op, *right_op, ll, rl),
                transform_transmute_fits::<K, V, W, R, RF, M>(*right_op, ll, rl),
                reduces_all(*reduce_op),
                jok == pair_entries_ok(transform_transmute_pred(*both_op, *left_op, *right_op), ll, rl),
                jot == transform_transmute_others(*left_op, *right_op),
                red_t.value() == reduced,
                reduction_fits(red_t, *reduce_op, done.union(outs.dom()), jok, jot),
                entries_keys(snode_entries(out@)).no_duplicates(),
                done.finite(),
                outs.dom().finite(),
                out@.len() <= done.len() + outs.dom().len(),
                forall|k: K| #[trigger] done.contains(k) <==> ll(k) is Some,
                forall|k: K| #[trigger] outs.dom().contains(k) ==> ll(k) is None && rl(k) is Some,
                forall|q: int| 0 <= q < j ==> (ll(#[trigger] res_[q].0) is None ==> outs.dom().contains(res_[q].0)),
                forall|q: int| j <= q < res_.len() ==> !outs.dom().contains(#[trigger] res_[q].0),
                forall|k: K| #[trigger] outs.dom().contains(k) ==> right_op.gives(k, rl(k)->Some_0, outs[k]),
                forall|k: K| #[trigger]
                    done.contains(k) ==> transform_with_transmuted_left_entry(
                        *both_op,
                        *left_op,
                        k,
                        ll(k)->Some_0,
                        rl(k),
                        entries_lookup(snode_entries(out@), k),
                    ),
                forall|k: K| #[trigger]
                    outs.dom().contains(k) && outs[k].new_entry() is Some ==> entries_lookup(
                        snode_entries(out@),
                        outs[k].new_entry()->Some_0.0,
                    ) == Some(outs[k].new_entry()->Some_0.1),
                forall|k: K| #[trigger]
                    entries_lookup(snode_entries(out@), k) is Some && ll(k) is None ==> exists|k0: K| #[trigger]
                        outs.dom().contains(k0) && outs[k0].new_entry() is Some && outs[k0].new_entry()->Some_0.0 == k,
                unchanged_l ==> forall|k: K| #[trigger]
                    done.contains(k) ==> transform_with_transmuted_left_entry(
                        *both_op,
                        *left_op,
                        k,
                        ll(k)->Some_0,
                        rl(k),
                        ll(k),
                    ),
                unchanged_l ==> forall|k: K| #[trigger] outs.dom().contains(k) ==> outs[k].new_entry() is None,
            decreases rights.len() - j,
        {
            let rn = &rights[j];
            let ghost key = rn.spec_key();
            let ghost w = rn.spec_value();
            proof {
                assert(res_[j as int] == (key, w));
                lemma_entries_lookup_at(res_, j as int);
                assert(rl(key) == Some(w));
            }
            match find_snode(&lefts, rn.key()) {
                Some(idx) => {
                    proof {
                        assert(les[idx as int].0 == key);
                        lemma_entries_lookup_at(les, idx as int);
                        assert forall|q: int| j + 1 <= q < res_.len() implies !outs.dom().contains(#[trigger] res_[q].0) by {
                        }
                    }
                },
                None => {
                    proof {
                        lemma_entries_lookup_some(les, key);
                        assert(ll(key) is None);
                        assert(!outs.dom().contains(key));
                        assert(transform_with_transmuted_accepts_entry(*both_op, *left_op, *right_op, key, ll(key), rl(key)));
                    }
                    let o = right_op.call(rn.key(), rn.value());
                    proof {
                        assert(right_op.gives(key, w, o));
                    }
                    let ghost os = snode_entries(out@);
                    let ghost pre_outs = outs;
                    let ghost go = o;
                    let ghost pre_red = reduced;
                    match o {
                        MapTransmuteResult::Transmuted(s, x, r) => {
                            let sn = SNode::new(s, x);
                            out.push(sn);
                            unchanged_l = false;
                            reduced = reduce_op(&reduced, &r);
                            proof {
                                assert(snode_entries(out@) =~= os.push((sn.spec_key(), sn.spec_value())));
                            }
                        },
                        MapTransmuteResult::Removed(r) => {
                            reduced = reduce_op(&reduced, &r);
                        },
                    }
                    proof {
                        assert(reduce_op.ensures((&pre_red, &go.reduced()), reduced));
                        assert(right_op matches MapTransmute::Generic(f) ==> f.ensures((&key, &w), go));
                        assert(jok(key, go.reduced()));
                        assert(!done.union(pre_outs.dom()).contains(key));
                        red_t = lemma_fits_add_entry(
                            red_t,
                            *reduce_op,
                            done.union(pre_outs.dom()),
                            key,
                            go.reduced(),
                            reduced,
                            jok,
                            jot,
                        );
                        assert(done.union(pre_outs.dom()).insert(key) =~= done.union(pre_outs.dom().insert(key)));
                        lemma_push_transmuted::<K, V, W, R, B, LF, RF, M>(
                            *both_op,
                            *left_op,
                            *right_op,
                            ll,
                            rl,
                            done,
                            pre_outs,
                            os,
                            snode_entries(out@),
                            key,
                            go,
                        );
                        outs = pre_outs.insert(key, go);
                        assert forall|q: int| j + 1 <= q < res_.len() implies !outs.dom().contains(#[trigger] res_[q].0) by {
                            assert(entries_keys(res_)[q] == res_[q].0);
                            assert(entries_keys(res_)[j as int] == res_[j as int].0);
                        }
                    }
                },
            }
            j = j + 1;
        }
        proof {
            assert forall|k: K| #[trigger] outs.dom().contains(k) <==> (ll(k) is None && rl(k) is Some) by {
                lemma_entries_lookup_some(res_, k);
                if ll(k) is None && rl(k) is Some {
                    let q = choose|q: int| 0 <= q < res_.len() && res_[q].0 == k && res_[q].1 == entries_lookup(res_, k)->Some_0;
                    assert(ll(res_[q].0) is None);
                }
            }
            assert(done.union(outs.dom()) =~= lookup_keys(ll).union(lookup_keys(rl)));
            assert(red_t.combines(*reduce_op));
        }
        if unchanged_l {
            proof {
                self.lemma_transform_transmute_flat_same::<M, W, R, B, LF, RF>(*right, *both_op, *left_op, *right_op, done, outs, d);
            }
            return (TransformResult::Unchanged(reduced), Ghost(outs));
        }
        let ghost os = snode_entries(out@);
        let made = MNode::from_snodes(&out);
        let t = match &made {
            None => TransformResult::Removed(reduced),
            Some(MNode::S(s)) => TransformResult::S(s.clone(), reduced),
            Some(MNode::L(l)) => TransformResult::L(l.clone(), reduced),
            Some(MNode::C(_)) => {
                proof {
                    assert(false);
                }
                TransformResult::Removed(reduced)
            },
        };
        proof {
            assert(t.node_after(*self) == made);
            self.lemma_transform_transmute_flat_node::<M, W, R, B, LF, RF>(*right, *both_op, *left_op, *right_op, made, os, done, outs, d);
        }
        (t, Ghost(outs))
    }
}

impl<K, V> MNode<K, V> {
    /// The children of two nodes at one position may be run on together by
    /// `transform_with_transmuted`: they are well formed, lie on one path, hold
    /// fewer keys than their parents together, and the operations may run on
    /// their entries and keep places.
    proof fn lemma_transform_transmute_step<M: HasherBv<u64, K>, W, R, B, LF, RF>(
        self,
        right: MNode<K, W>,
        both_op: MapTransform<R, B>,
        left_op: MapTransform<R, LF>,
        right_op: MapTransmute<R, RF>,
        d: nat,
        p: int,
    ) where
        B: Fn(&K, &V, &K, &W) -> MapTransformResult<V, R>,
        LF: Fn(&K, &V) -> MapTransformResult<V, R>,
        RF: Fn(&K, &W) -> MapTransmuteResult<K, V, R>,

        requires
            self.wf::<M>(d),
            right.wf::<M>(d),
            d <= max_depth(),
            paths_agree::<K, V, W, M>(self, right, d),
            keys_below::<K, V, W, M>(self, right, d).finite(),
            keys_below::<K, V, W, M>(self, right, d).len() <= usize::MAX,
            transform_transmute_accepts(both_op, left_op, right_op, node_lookup::<K, V, M>(self, d), node_lookup::<K, W, M>(right, d)),
            transform_transmute_fits::<K, V, W, R, RF, M>(right_op, node_lookup::<K, V, M>(self, d), node_lookup::<K, W, M>(right, d)),
            self.children_at::<M>(d).contains_key(p),
            right.children_at::<M>(d).contains_key(p),
        ensures
            self.children_at::<M>(d)[p].wf::<M>(d + 1),
            right.children_at::<M>(d)[p].wf::<M>(d + 1),
            paths_agree::<K, V, W, M>(self.children_at::<M>(d)[p], right.children_at::<M>(d)[p], d + 1),
            keys_below::<K, V, W, M>(self.children_at::<M>(d)[p], right.children_at::<M>(d)[p], d + 1).len() <= usize::MAX,
            transform_transmute_accepts(
                both_op,
                left_op,
                right_op,
                node_lookup::<K, V, M>(self.children_at::<M>(d)[p], d + 1),
                node_lookup::<K, W, M>(right.children_at::<M>(d)[p], d + 1),
            ),
            transform_transmute_fits::<K, V, W, R, RF, M>(
                right_op,
                node_lookup::<K, V, M>(self.children_at::<M>(d)[p], d + 1),
                node_lookup::<K, W, M>(right.children_at::<M>(d)[p], d + 1),
            ),
    {
        let ln = self.children_at::<M>(d)[p];
        let rn = right.children_at::<M>(d)[p];
        let pl = node_lookup::<K, V, M>(self, d);
        let pr = node_lookup::<K, W, M>(right, d);
        let cl = node_lookup::<K, V, M>(ln, d + 1);
        let cr = node_lookup::<K, W, M>(rn, d + 1);
        self.lemma_children_at::<M>(d);
        right.lemma_children_at::<M>(d);
        ln.lemma_size_view::<M>(d + 1);
        rn.lemma_size_view::<M>(d + 1);
        assert forall|k1: K, k2: K|
            #![trigger ln.lookup::<M>(k1, d + 1), rn.lookup::<M>(k2, d + 1)]
            ln.lookup::<M>(k1, d + 1) is Some && rn.lookup::<M>(k2, d + 1) is Some implies agrees_below(
                M::hash_of(k1),
                M::hash_of(k2),
                d + 1,
            ) by {
            assert(self.lookup::<M>(k1, d) == child_lookup::<K, V, M>(self.children_at::<M>(d), k1, d));
            assert(right.lookup::<M>(k2, d) == child_lookup::<K, W, M>(right.children_at::<M>(d), k2, d));
            assert(agrees_below(M::hash_of(k1), M::hash_of(k2), d));
            assert forall|j: nat| j < d + 1 implies #[trigger] hash_chunk(M::hash_of(k1), j) == hash_chunk(M::hash_of(k2), j) by {
                if j < d {
                    assert(hash_chunk(M::hash_of(k1), j) == hash_chunk(M::hash_of(k2), j));
                }
            }
        }
        let cu = keys_below::<K, V, W, M>(ln, rn, d + 1);
        assert(cu.subset_of(keys_below::<K, V, W, M>(self, right, d))) by {
            assert forall|k: K| cu.contains(k) implies #[trigger] keys_below::<K, V, W, M>(self, right, d).contains(k) by {
                if ln.lookup::<M>(k, d + 1) is Some {
                    assert(self.lookup::<M>(k, d) == child_lookup::<K, V, M>(self.children_at::<M>(d), k, d));
                } else {
                    assert(right.lookup::<M>(k, d) == child_lookup::<K, W, M>(right.children_at::<M>(d), k, d));
                }
            }
        }
        vstd::set_lib::lemma_len_subset(cu, keys_below::<K, V, W, M>(self, right, d));
        assert forall|k: K| hash_chunk(M::hash_of(k), d) == p implies #[trigger] pl(k) == cl(k) && pr(k) == cr(k) by {
            assert(self.lookup::<M>(k, d) == child_lookup::<K, V, M>(self.children_at::<M>(d), k, d));
            assert(right.lookup::<M>(k, d) == child_lookup::<K, W, M>(right.children_at::<M>(d), k, d));
        }
        assert forall|k: K| #[trigger] cl(k) is Some || #[trigger] cr(k) is Some implies hash_chunk(M::hash_of(k), d) == p by {
            if cl(k) is Some {
                assert(ln.lookup::<M>(k, d + 1) is Some);
            } else {
                assert(rn.lookup::<M>(k, d + 1) is Some);
            }
        }
        assert forall|k: K|
            #![trigger cl(k)]
            #![trigger cr(k)]
            transform_with_transmuted_accepts_entry(both_op, left_op, right_op, k, cl(k), cr(k)) by {
            if cl(k) is Some || cr(k) is Some {
                assert(transform_with_transmuted_accepts_entry(both_op, left_op, right_op, k, pl(k), pr(k)));
            }
        }
        assert forall|k: K, r: MapTransmuteResult<K, V, R>|
            #![trigger right_op.gives(k, cr(k)->Some_0, r)]
            cl(k) is None && cr(k) is Some && right_op.gives(k, cr(k)->Some_0, r) && r.new_entry() is Some implies M::hash_of(
                r.new_entry()->Some_0.0,
            ) == M::hash_of(k) && cl(r.new_entry()->Some_0.0) is None by {
            assert(right_op.gives(k, pr(k)->Some_0, r));
            assert(hash_chunk(M::hash_of(r.new_entry()->Some_0.0), d) == p);
        }
        assert forall|k1: K, k2: K, r1: MapTransmuteResult<K, V, R>, r2: MapTransmuteResult<K, V, R>|
            #![trigger right_op.gives(k1, cr(k1)->Some_0, r1), right_op.gives(k2, cr(k2)->Some_0, r2)]
            cl(k1) is None && cr(k1) is Some && cl(k2) is None && cr(k2) is Some && k1 != k2 && right_op.gives(
                k1,
                cr(k1)->Some_0,
                r1,
            ) && right_op.gives(k2, cr(k2)->Some_0, r2) && r1.new_entry() is Some && r2.new_entry() is Some
                implies r1.new_entry()->Some_0.0 != r2.new_entry()->Some_0.0 by {
            assert(right_op.gives(k1, pr(k1)->Some_0, r1));
            assert(right_op.gives(k2, pr(k2)->Some_0, r2));
        }
    }

    /// The child at `p` of one side, with no child of the other side there, may
    /// be run on by that side's operation alone, and what it makes is what
    /// `transform_with_transmuted` makes of it.
    proof fn lemma_transform_transmute_side<M: HasherBv<u64, K>, W, R, B, LF, RF>(
        self,
        right: MNode<K, W>,
        both_op: MapTransform<R, B>,
        left_op: MapTransform<R, LF>,
        right_op: MapTransmute<R, RF>,
        d: nat,
        p: int,
        left_side: bool,
    ) where
        B: Fn(&K, &V, &K, &W) -> MapTransformResult<V, R>,
        LF: Fn(&K, &V) -> MapTransformResult<V, R>,
        RF: Fn(&K, &W) -> MapTransmuteResult<K, V, R>,

        requires
            self.wf::<M>(d),
            right.wf::<M>(d),
            d <= max_depth(),
            transform_transmute_accepts(both_op, left_op, right_op, node_lookup::<K, V, M>(self, d), node_lookup::<K, W, M>(right, d)),
            transform_transmute_fits::<K, V, W, R, RF, M>(right_op, node_lookup::<K, V, M>(self, d), node_lookup::<K, W, M>(right, d)),
            left_side ==> self.children_at::<M>(d).contains_key(p) && !right.children_at::<M>(d).contains_key(p),
            !left_side ==> right.children_at::<M>(d).contains_key(p) && !self.children_at::<M>(d).contains_key(p),
        ensures
            left_side ==> accepts_below::<K, V, R, LF, M>(left_op, self.children_at::<M>(d)[p], d + 1),
            !left_side ==> transmute_accepts(right_op, node_lookup::<K, W, M>(right.children_at::<M>(d)[p], d + 1))
                && transmute_fits::<K, W, K, V, R, RF, M>(right_op, node_lookup::<K, W, M>(right.children_at::<M>(d)[p], d + 1)),
    {
        let pl = node_lookup::<K, V, M>(self, d);
        let pr = node_lookup::<K, W, M>(right, d);
        self.lemma_children_at::<M>(d);
        right.lemma_children_at::<M>(d);
        if left_side {
            let ln = self.children_at::<M>(d)[p];
            assert forall|k: K| #[trigger] ln.lookup::<M>(k, d + 1) is Some implies left_op.accepts(k, ln.lookup::<M>(k, d + 1)->Some_0) by {
                assert(self.lookup::<M>(k, d) == child_lookup::<K, V, M>(self.children_at::<M>(d), k, d));
                assert(right.lookup::<M>(k, d) == child_lookup::<K, W, M>(right.children_at::<M>(d), k, d));
                assert(transform_with_transmuted_accepts_entry(both_op, left_op, right_op, k, pl(k), pr(k)));
            }
        } else {
            let rn = right.children_at::<M>(d)[p];
            let cr = node_lookup::<K, W, M>(rn, d + 1);
            assert forall|k: K| #[trigger] cr(k) is Some implies pr(k) == cr(k) && pl(k) is None by {
                assert(rn.lookup::<M>(k, d + 1) is Some);
                assert(self.lookup::<M>(k, d) == child_lookup::<K, V, M>(self.children_at::<M>(d), k, d));
                assert(right.lookup::<M>(k, d) == child_lookup::<K, W, M>(right.children_at::<M>(d), k, d));
            }
            assert forall|k: K| #[trigger] cr(k) is Some implies right_op.accepts(k, cr(k)->Some_0) by {
                assert(transform_with_transmuted_accepts_entry(both_op, left_op, right_op, k, pl(k), pr(k)));
            }
            assert forall|k: K, r: MapTransmuteResult<K, V, R>|
                #![trigger right_op.gives(k, cr(k)->Some_0, r)]
                cr(k) is Some && right_op.gives(k, cr(k)->Some_0, r) && r.new_entry() is Some implies <M as HasherBv<
                    u64,
                    K,
                >>::hash_of(r.new_entry()->Some_0.0) == <M as HasherBv<u64, K>>::hash_of(k) by {
                assert(right_op.gives(k, pr(k)->Some_0, r));
            }
            assert forall|k1: K, k2: K, r1: MapTransmuteResult<K, V, R>, r2: MapTransmuteResult<K, V, R>|
                #![trigger right_op.gives(k1, cr(k1)->Some_0, r1), right_op.gives(k2, cr(k2)->Some_0, r2)]
                cr(k1) is Some && cr(k2) is Some && k1 != k2 && right_op.gives(k1, cr(k1)->Some_0, r1) && right_op.gives(
                    k2,
                    cr(k2)->Some_0,
                    r2,
                ) && r1.new_entry() is Some && r2.new_entry() is Some implies r1.new_entry()->Some_0.0
                != r2.new_entry()->Some_0.0 by {
                assert(right_op.gives(k1, pr(k1)->Some_0, r1));
                assert(right_op.gives(k2, pr(k2)->Some_0, r2));
            }
        }
    }
}

/// A transformation of the entries of the left side alone is what
/// `transform_with_transmuted` makes of them with nothing on the right.
pub proof fn lemma_transform_transmute_left_alone<K, V, W, R, B, LF, RF>(
    both_op: MapTransform<R, B>,
    left_op: MapTransform<R, LF>,
    right_op: MapTransmute<R, RF>,
    ll: spec_fn(K) -> Option<V>,
    rl: spec_fn(K) -> Option<W>,
    nl: spec_fn(K) -> Option<V>,
) where
    B: Fn(&K, &V, &K, &W) -> MapTransformResult<V, R>,
    LF: Fn(&K, &V) -> MapTransformResult<V, R>,
    RF: Fn(&K, &W) -> MapTransmuteResult<K, V, R>,

    requires
        forall|k: K| #[trigger] rl(k) is None,
        forall|k: K| #![trigger ll(k)] #![trigger nl(k)] transformed_entry(left_op, k, ll(k), nl(k)),
    ensures
        transform_transmuted_lookups(both_op, left_op, right_op, ll, rl, nl, Map::empty()),
{
    assert forall|k: K| #[trigger] Map::<K, MapTransmuteResult<K, V, R>>::empty().dom().contains(k) <==> (ll(k) is None
        && rl(k) is Some) by {
        assert(rl(k) is None);
    }
    assert forall|k: K| #![trigger ll(k)] #![trigger nl(k)] ll(k) is Some implies transform_with_transmuted_left_entry(
        both_op,
        left_op,
        k,
        ll(k)->Some_0,
        rl(k),
        nl(k),
    ) by {
        assert(rl(k) is None);
        assert(transformed_entry(left_op, k, ll(k), nl(k)));
    }
    assert forall|s: K| #[trigger] nl(s) is Some && ll(s) is None implies exists|k: K| #[trigger]
        Map::<K, MapTransmuteResult<K, V, R>>::empty().dom().contains(k) && Map::<K, MapTransmuteResult<K, V, R>>::empty()[k].new_entry() is Some
            && Map::<K, MapTransmuteResult<K, V, R>>::empty()[k].new_entry()->Some_0.0 == s by {
        assert(transformed_entry(left_op, s, ll(s), nl(s)));
    }
}

/// A transmutation of the entries of the right side alone is what
/// `transform_with_transmuted` makes of them with nothing on the left.
pub proof fn lemma_transform_transmute_right_alone<K, V, W, R, B, LF, RF>(
    both_op: MapTransform<R, B>,
    left_op: MapTransform<R, LF>,
    right_op: MapTransmute<R, RF>,
    ll: spec_fn(K) -> Option<V>,
    rl: spec_fn(K) -> Option<W>,
    nl: spec_fn(K) -> Option<V>,
    outs: Map<K, MapTransmuteResult<K, V, R>>,
) where
    B: Fn(&K, &V, &K, &W) -> MapTransformResult<V, R>,
    LF: Fn(&K, &V) -> MapTransformResult<V, R>,
    RF: Fn(&K, &W) -> MapTransmuteResult<K, V, R>,

    requires
        forall|k: K| #[trigger] ll(k) is None,
        transmuted_lookups(right_op, rl, nl, outs),
    ensures
        transform_transmuted_lookups(both_op, left_op, right_op, ll, rl, nl, outs),
{
    assert forall|k: K| #[trigger] outs.dom().contains(k) <==> (ll(k) is None && rl(k) is Some) by {
        assert(ll(k) is None);
    }
    assert forall|s: K| #[trigger] nl(s) is Some && ll(s) is None implies exists|k: K| #[trigger]
        outs.dom().contains(k) && outs[k].new_entry() is Some && outs[k].new_entry()->Some_0.0 == s by {
    }
}

/// A reduction of a transformation's values for a node on the left alone is
/// one of `transform_with_transmuted`'s values for it.
pub proof fn lemma_transform_transmute_reduced_left<K, V, W, R: Clone + Default, RO: Fn(&R, &R) -> R, B, LF, RF, M: HasherBv<u64, K>>(
    reduce_op: RO,
    both_op: MapTransform<R, B>,
    left_op: MapTransform<R, LF>,
    right_op: MapTransmute<R, RF>,
    n: MNode<K, V>,
    d: nat,
    rl: spec_fn(K) -> Option<W>,
    r: R,
) where
    B: Fn(&K, &V, &K, &W) -> MapTransformResult<V, R>,
    LF: Fn(&K, &V) -> MapTransformResult<V, R>,
    RF: Fn(&K, &W) -> MapTransmuteResult<K, V, R>,

    requires
        node_transform_reduced::<K, V, R, RO, LF, M>(reduce_op, left_op, n, d, r),
        forall|k: K| #[trigger] rl(k) is None,
    ensures
        pair_reduced_at(
            reduce_op,
            transform_transmute_pred(both_op, left_op, right_op),
            transform_transmute_others(left_op, right_op),
            node_lookup::<K, V, M>(n, d),
            rl,
            r,
        ),
{
    let nl = node_lookup::<K, V, M>(n, d);
    let pred = transform_transmute_pred(both_op, left_op, right_op);
    let t = choose|t: Reduction<K, R>|
        #![trigger t.combines(reduce_op)]
        reduction_fits(
            t,
            reduce_op,
            node_keys::<K, V, M>(n, d),
            node_transform_entries_ok::<K, V, R, LF, M>(left_op, n, d),
            transform_others_ok(left_op),
        ) && t.value() == r;
    assert(node_keys::<K, V, M>(n, d) =~= lookup_keys(nl).union(lookup_keys(rl))) by {
        assert forall|k: K| lookup_keys(nl).union(lookup_keys(rl)).contains(k) implies node_keys::<K, V, M>(n, d).contains(k) by {
            assert(rl(k) is None);
        }
    }
    assert forall|k: K, y: R|
        node_keys::<K, V, M>(n, d).contains(k) && #[trigger] node_transform_entries_ok::<K, V, R, LF, M>(left_op, n, d)(k, y) implies #[trigger] pair_entries_ok(
        pred,
        nl,
        rl,
    )(k, y) by {
        assert(rl(k) is None);
    }
    lemma_fits_weaken(
        t,
        reduce_op,
        node_keys::<K, V, M>(n, d),
        lookup_keys(nl).union(lookup_keys(rl)),
        node_transform_entries_ok::<K, V, R, LF, M>(left_op, n, d),
        pair_entries_ok(pred, nl, rl),
        transform_others_ok(left_op),
        transform_transmute_others(left_op, right_op),
    );
    assert(t.combines(reduce_op));
}

/// A reduction of a transmutation's values for a node on the right alone is
/// one of `transform_with_transmuted`'s values for it.
pub proof fn lemma_transform_transmute_reduced_right<K, V, W, R: Clone + Default, RO: Fn(&R, &R) -> R, B, LF, RF>(
    reduce_op: RO,
    both_op: MapTransform<R, B>,
    left_op: MapTransform<R, LF>,
    right_op: MapTransmute<R, RF>,
    ll: spec_fn(K) -> Option<V>,
    rl: spec_fn(K) -> Option<W>,
    r: R,
) where
    B: Fn(&K, &V, &K, &W) -> MapTransformResult<V, R>,
    LF: Fn(&K, &V) -> MapTransformResult<V, R>,
    RF: Fn(&K, &W) -> MapTransmuteResult<K, V, R>,

    requires
        transmute_reduced_at(reduce_op, right_op, rl, r),
        forall|k: K| #[trigger] ll(k) is None,
    ensures
        pair_reduced_at(
            reduce_op,
            transform_transmute_pred(both_op, left_op, right_op),
            transform_transmute_others(left_op, right_op),
            ll,
            rl,
            r,
        ),
{
    let pred = transform_transmute_pred(both_op, left_op, right_op);
    let t = choose|t: Reduction<K, R>|
        #![trigger t.combines(reduce_op)]
        reduction_fits(t, reduce_op, lookup_keys(rl), transmute_entries_ok(right_op, rl), transmute_others_ok(right_op))
            && t.value() == r;
    assert(lookup_keys(rl) =~= lookup_keys(ll).union(lookup_keys(rl))) by {
        assert forall|k: K| lookup_keys(ll).union(lookup_keys(rl)).contains(k) implies lookup_keys(rl).contains(k) by {
            assert(ll(k) is None);
        }
    }
    assert forall|k: K, y: R| lookup_keys(rl).contains(k) && #[trigger] transmute_entries_ok(right_op, rl)(k, y) implies #[trigger] pair_entries_ok(
        pred,
        ll,
        rl,
    )(k, y) by {
        assert(ll(k) is None);
    }
    lemma_fits_weaken(
        t,
        reduce_op,
        lookup_keys(rl),
        lookup_keys(ll).union(lookup_keys(rl)),
        transmute_entries_ok(right_op, rl),
        pair_entries_ok(pred, ll, rl),
        transmute_others_ok(right_op),
        transform_transmute_others(left_op, right_op),
    );
    assert(t.combines(reduce_op));
}

impl<K: Key, V> MNode<K, V> {
    /// Run `transform_with_transmuted` on the entries below `self` and `right` at
    /// `depth`: `both_op` on the keys of both sides, `left_op` on those of the
    /// left side only, and `right_op` on those of the right side only, each new
    /// entry in the place of the entry it comes from. The result is of the left
    /// side's types.
    pub fn transform_with_transmuted<
        M: HasherBv<u64, K>,
        W,
        R: Clone + Default,
        RO: Fn(&R, &R) -> R,
        B: Fn(&K, &V, &K, &W) -> MapTransformResult<V, R>,
        LF: Fn(&K, &V) -> MapTransformResult<V, R>,
        RF: Fn(&K, &W) -> MapTransmuteResult<K, V, R>,
    >(
        &self,
        right: &MNode<K, W>,
        reduce_op: &RO,
        both_op: &MapTransform<R, B>,
        left_op: &MapTransform<R, LF>,
        right_op: &MapTransmute<R, RF>,
        depth: usize,
    ) -> (res: (TransformResult<K, V, R>, Ghost<Map<K, MapTransmuteResult<K, V, R>>>))
        requires
            self.wf::<M>(depth as nat),
            right.wf::<M>(depth as nat),
            depth <= 13,
            paths_agree::<K, V, W, M>(*self, *right, depth as nat),
            keys_below::<K, V, W, M>(*self, *right, depth as nat).len() <= usize::MAX,
            transform_transmute_accepts(
                *both_op,
                *left_op,
                *right_op,
                node_lookup::<K, V, M>(*self, depth as nat),
                node_lookup::<K, W, M>(*right, depth as nat),
            ),
            transform_transmute_fits::<K, V, W, R, RF, M>(
                *right_op,
                node_lookup::<K, V, M>(*self, depth as nat),
                node_lookup::<K, W, M>(*right, depth as nat),
            ),
            reduces_all(*reduce_op),
        ensures
            res.0.node_after(*self) matches Some(n) ==> n.wf::<M>(depth as nat) && n.size_of() <= keys_below::<
                K,
                V,
                W,
                M,
            >(*self, *right, depth as nat).len(),
            transform_transmuted_lookups(
                *both_op,
                *left_op,
                *right_op,
                node_lookup::<K, V, M>(*self, depth as nat),
                node_lookup::<K, W, M>(*right, depth as nat),
                opt_lookup::<K, V, M>(res.0.node_after(*self), depth as nat),
                res.1@,
            ),
            pair_reduced_at(
                *reduce_op,
                transform_transmute_pred(*both_op, *left_op, *right_op),
                transform_transmute_others(*left_op, *right_op),
                node_lookup::<K, V, M>(*self, depth as nat),
                node_lookup::<K, W, M>(*right, depth as nat),
                res.0.reduced(),
            ),
        decreases 13 - depth, 1nat,
    {
        let same_hash = match self.flat_key::<M>() {
            Some(a) => match right.flat_key::<M>() {
                Some(b) => M::hash(a) == M::hash(b),
                None => false,
            },
            None => false,
        };
        if same_hash {
            self.transform_with_transmuted_flat::<M, W, R, RO, B, LF, RF>(right, reduce_op, both_op, left_op, right_op, depth)
        } else {
            proof {
                if depth > max_depth() && !(self is C) && !(right is C) {
                    self.lemma_flat::<M>(depth as nat, depth as nat);
                    right.lemma_flat::<M>(depth as nat, depth as nat);
                    let k1 = self.flat_entries()[0].0;
                    let k2 = right.flat_entries()[0].0;
                    self.lemma_flat_lookup::<M>(k1, depth as nat);
                    right.lemma_flat_lookup::<M>(k2, depth as nat);
                    lemma_entries_lookup_some(self.flat_entries(), k1);
                    lemma_entries_lookup_some(right.flat_entries(), k2);
                    assert(entries_keys(self.flat_entries())[0] == k1);
                    assert(entries_keys(right.flat_entries())[0] == k2);
                    assert(self.lookup::<M>(k1, depth as nat) is Some);
                    assert(right.lookup::<M>(k2, depth as nat) is Some);
                    lemma_agree_all(M::hash_of(k1), M::hash_of(k2), depth as nat);
                }
            }
            self.transform_with_transmuted_children::<M, W, R, RO, B, LF, RF>(right, reduce_op, both_op, left_op, right_op, depth)
        }
    }

    /// `transform_with_transmuted` at `depth` position by position: the children
    /// of both sides at a position are run on together, a left child alone by
    /// `left_op`, a right child alone by `right_op`, and the children made are
    /// gathered; the left node stays when each of its children does.
    #[verifier::rlimit(40)]
    fn transform_with_transmuted_children<
        M: HasherBv<u64, K>,
        W,
        R: Clone + Default,
        RO: Fn(&R, &R) -> R,
        B: Fn(&K, &V, &K, &W) -> MapTransformResult<V, R>,
        LF: Fn(&K, &V) -> MapTransformResult<V, R>,
        RF: Fn(&K, &W) -> MapTransmuteResult<K, V, R>,
    >(
        &self,
        right: &MNode<K, W>,
        reduce_op: &RO,
        both_op: &MapTransform<R, B>,
        left_op: &MapTransform<R, LF>,
        right_op: &MapTransmute<R, RF>,
        depth: usize,
    ) -> (res: (TransformResult<K, V, R>, Ghost<Map<K, MapTransmuteResult<K, V, R>>>))
        requires
            self.wf::<M>(depth as nat),
            right.wf::<M>(depth as nat),
            depth as nat <= max_depth(),
            paths_agree::<K, V, W, M>(*self, *right, depth as nat),
            keys_below::<K, V, W, M>(*self, *right, depth as nat).len() <= usize::MAX,
            transform_transmute_accepts(
                *both_op,
                *left_op,
                *right_op,
                node_lookup::<K, V, M>(*self, depth as nat),
                node_lookup::<K, W, M>(*right, depth as nat),
            ),
            transform_transmute_fits::<K, V, W, R, RF, M>(
                *right_op,
                node_lookup::<K, V, M>(*self, depth as nat),
                node_lookup::<K, W, M>(*right, depth as nat),
            ),
            reduces_all(*reduce_op),
        ensures
            res.0.node_after(*self) matches Some(n) ==> n.wf::<M>(depth as nat) && n.size_of() <= keys_below::<
                K,
                V,
                W,
                M,
            >(*self, *right, depth as nat).len(),
            transform_transmuted_lookups(
                *both_op,
                *left_op,
                *right_op,
                node_lookup::<K, V, M>(*self, depth as nat),
                node_lookup::<K, W, M>(*right, depth as nat),
                opt_lookup::<K, V, M>(res.0.node_after(*self), depth as nat),
                res.1@,
            ),
            pair_reduced_at(
                *reduce_op,
                transform_transmute_pred(*both_op, *left_op, *right_op),
                transform_transmute_others(*left_op, *right_op),
                node_lookup::<K, V, M>(*self, depth as nat),
                node_lookup::<K, W, M>(*right, depth as nat),
                res.0.reduced(),
            ),
        decreases 13 - depth, 0nat,
    {
        let ghost d = depth as nat;
        let ghost lc = self.children_at::<M>(d);
        let ghost rc = right.children_at::<M>(d);
        let ghost all = keys_below::<K, V, W, M>(*self, *right, d);
        let ghost pl = node_lookup::<K, V, M>(*self, d);
        let ghost pr = node_lookup::<K, W, M>(*right, d);
        proof {
            self.lemma_children_at::<M>(d);
            right.lemma_children_at::<M>(d);
            self.lemma_size_view::<M>(d);
            right.lemma_size_view::<M>(d);
        }
        let lchunk: usize = match self.flat_key::<M>() {
            Some(a) => {
                let h = M::hash(a);
                proof {
                    crate::flag::lemma_hash_chunk_range(h, d);
                }
                ((h >> ((5 * depth) as u64)) & 31u64) as usize
            },
            None => 32,
        };
        let rchunk: usize = match right.flat_key::<M>() {
            Some(b) => {
                let h = M::hash(b);
                proof {
                    crate::flag::lemma_hash_chunk_range(h, d);
                }
                ((h >> ((5 * depth) as u64)) & 31u64) as usize
            },
            None => 32,
        };
        let mut size: usize = 0;
        let mut bits_t: u32 = u32::zero_word();
        let mut values_t: Vec<MNode<K, V>> = Vec::new();
        let mut reduced: R = R::default();
        let mut unchanged_l = true;
        let ghost mut newc: Map<int, MNode<K, V>> = Map::empty();
        let ghost mut keys: Set<K> = Set::empty();
        let ghost mut oldk: Set<K> = Set::empty();
        let ghost mut outs: Map<K, MapTransmuteResult<K, V, R>> = Map::empty();
        let ghost jpred = transform_transmute_pred(*both_op, *left_op, *right_op);
        let ghost jot = transform_transmute_others(*left_op, *right_op);
        let ghost mut red_t: Reduction<K, R> = Reduction::Other(reduced);
        proof {
            lemma_count_zero(bits_t.bit_seq());
            lemma_fits_other(reduced, *reduce_op, pair_entries_ok(jpred, node_lookup::<K, V, M>(*self, d), node_lookup::<K, W, M>(*right, d)), jot);
            assert(joint_keys_before::<K, V, W, M>(*self, *right, d, 0) =~= Set::<K>::empty()) by {
                assert forall|k: K| !joint_keys_before::<K, V, W, M>(*self, *right, d, 0).contains(k) by {
                    lemma_hash_chunk_range(M::hash_of(k), d);
                }
            }
        }
        let mut index: usize = 0;
        while index < 32
            invariant
                index <= 32,
                d == depth as nat,
                d <= max_depth(),
                lc == self.children_at::<M>(d),
                rc == right.children_at::<M>(d),
                all == keys_below::<K, V, W, M>(*self, *right, d),
                all.finite(),
                all.len() <= usize::MAX,
                pl == node_lookup::<K, V, M>(*self, d),
                pr == node_lookup::<K, W, M>(*right, d),
                jpred == transform_transmute_pred(*both_op, *left_op, *right_op),
                jot == transform_transmute_others(*left_op, *right_op),
                red_t.value() == reduced,
                reduction_fits(red_t, *reduce_op, joint_keys_before::<K, V, W, M>(*self, *right, d, index as int), pair_entries_ok(jpred, pl, pr), jot),
                self.wf::<M>(d),
                right.wf::<M>(d),
                paths_agree::<K, V, W, M>(*self, *right, d),
                transform_transmute_accepts(*both_op, *left_op, *right_op, pl, pr),
                transform_transmute_fits::<K, V, W, R, RF, M>(*right_op, pl, pr),
                reduces_all(*reduce_op),
                !(self is C) ==> lchunk == hash_chunk(self.flat_hash::<M>(), d),
                !(right is C) ==> rchunk == hash_chunk(right.flat_hash::<M>(), d),
                forall|k: K| #[trigger] self.lookup::<M>(k, d) == child_lookup::<K, V, M>(lc, k, d),
                forall|k: K| #[trigger] right.lookup::<M>(k, d) == child_lookup::<K, W, M>(rc, k, d),
                forall|p: int| #[trigger]
                    lc.contains_key(p) ==> {
                        &&& 0 <= p < 32
                        &&& lc[p].wf::<M>(d + 1)
                        &&& forall|k: K| #[trigger] lc[p].lookup::<M>(k, d + 1) is Some ==> hash_chunk(M::hash_of(k), d) == p
                    },
                forall|p: int| #[trigger]
                    rc.contains_key(p) ==> {
                        &&& 0 <= p < 32
                        &&& rc[p].wf::<M>(d + 1)
                        &&& forall|k: K| #[trigger] rc[p].lookup::<M>(k, d + 1) is Some ==> hash_chunk(M::hash_of(k), d) == p
                    },
                bits_t.bit_seq().len() == 32,
                forall|p: int| 0 <= p < 32 ==> #[trigger] bits_t.bit_seq()[p] == newc.contains_key(p),
                forall|p: int|
                    #[trigger] newc.contains_key(p) ==> {
                        &&& 0 <= p < index
                        &&& newc[p].wf::<M>(d + 1)
                        &&& values_t@[rank(bits_t.bit_seq(), p) as int] == newc[p]
                        &&& forall|k: K| #[trigger] newc[p].lookup::<M>(k, d + 1) is Some ==> hash_chunk(M::hash_of(k), d) == p
                    },
                values_t@.len() == count_set(bits_t.bit_seq()),
                forall|k: K| #[trigger]
                    outs.dom().contains(k) <==> (hash_chunk(M::hash_of(k), d) < index && pl(k) is None && pr(k) is Some),
                forall|k: K| #[trigger] outs.dom().contains(k) ==> right_op.gives(k, pr(k)->Some_0, outs[k]),
                forall|k: K|
                    #![trigger pl(k)]
                    #![trigger child_lookup::<K, V, M>(newc, k, d)]
                    hash_chunk(M::hash_of(k), d) < index && pl(k) is Some ==> transform_with_transmuted_left_entry(
                        *both_op,
                        *left_op,
                        k,
                        pl(k)->Some_0,
                        pr(k),
                        child_lookup::<K, V, M>(newc, k, d),
                    ),
                forall|k: K| #[trigger]
                    outs.dom().contains(k) && outs[k].new_entry() is Some ==> child_lookup::<K, V, M>(
                        newc,
                        outs[k].new_entry()->Some_0.0,
                        d,
                    ) == Some(outs[k].new_entry()->Some_0.1),
                forall|s: K| #[trigger]
                    child_lookup::<K, V, M>(newc, s, d) is Some && pl(s) is None ==> exists|k: K| #[trigger]
                        outs.dom().contains(k) && outs[k].new_entry() is Some && outs[k].new_entry()->Some_0.0 == s,
                unchanged_l ==> forall|k: K|
                    #![trigger pl(k)]
                    hash_chunk(M::hash_of(k), d) < index && pl(k) is Some ==> transform_with_transmuted_left_entry(
                        *both_op,
                        *left_op,
                        k,
                        pl(k)->Some_0,
                        pr(k),
                        pl(k),
                    ),
                unchanged_l ==> forall|k: K| #[trigger] outs.dom().contains(k) ==> outs[k].new_entry() is None,
                keys.finite(),
                size == keys.len(),
                forall|k: K| #[trigger] keys.contains(k) <==> child_lookup::<K, V, M>(newc, k, d) is Some,
                oldk.finite(),
                oldk.subset_of(all),
                size <= oldk.len(),
                forall|k: K| #[trigger] oldk.contains(k) ==> hash_chunk(M::hash_of(k), d) < index,
            decreases 32 - index,
        {
            let ghost pre_newc = newc;
            let ghost pre_keys = keys;
            let ghost pre_oldk = oldk;
            let ghost pre_outs = outs;
            let ghost pre_bits = bits_t.bit_seq();
            let ghost p = index as int;
            let lchild: Option<&MNode<K, V>> = match self {
                MNode::C(c) => match c.nodes.at_index(index) {
                    Ok(n) => Some(n),
                    Err(_) => None,
                },
                _ => if index == lchunk {
                    Some(self)
                } else {
                    None
                },
            };
            let rchild: Option<&MNode<K, W>> = match right {
                MNode::C(c) => match c.nodes.at_index(index) {
                    Ok(n) => Some(n),
                    Err(_) => None,
                },
                _ => if index == rchunk {
                    Some(right)
                } else {
                    None
                },
            };
            let ghost cll = |k: K| lookup_in::<K, V, M>(lc.get(p), k, d + 1);
            let ghost crl = |k: K| lookup_in::<K, W, M>(rc.get(p), k, d + 1);
            let ghost lnode = match lc.get(p) {
                Some(n) => n,
                None => *self,
            };
            let ghost pk = Set::new(|k: K| cll(k) is Some || crl(k) is Some);
            proof {
                assert(lchild is Some <==> lc.contains_key(p));
                assert(lchild matches Some(n) ==> *n == lc[p]);
                assert(rchild is Some <==> rc.contains_key(p));
                assert(rchild matches Some(n) ==> *n == rc[p]);
                assert forall|k: K| hash_chunk(M::hash_of(k), d) == p implies #[trigger] pl(k) == cll(k) && pr(k) == crl(k) by {
                    assert(self.lookup::<M>(k, d) == child_lookup::<K, V, M>(lc, k, d));
                    assert(right.lookup::<M>(k, d) == child_lookup::<K, W, M>(rc, k, d));
                }
                assert forall|k: K| #[trigger] cll(k) is Some || #[trigger] crl(k) is Some implies hash_chunk(M::hash_of(k), d) == p by {
                    if cll(k) is Some {
                        assert(lc[p].lookup::<M>(k, d + 1) is Some);
                    } else {
                        assert(rc[p].lookup::<M>(k, d + 1) is Some);
                    }
                }
                assert(pk.subset_of(all)) by {
                    assert forall|k: K| pk.contains(k) implies #[trigger] all.contains(k) by {
                        assert(pl(k) == self.lookup::<M>(k, d));
                        assert(pr(k) == right.lookup::<M>(k, d));
                    }
                }
                vstd::set_lib::lemma_len_subset(pk, all);
            }
            let (t_opt, couts): (Option<TransformResult<K, V, R>>, Ghost<Map<K, MapTransmuteResult<K, V, R>>>) = match lchild {
                Some(ln) => match rchild {
                    Some(rn) => {
                        proof {
                            self.lemma_transform_transmute_step::<M, W, R, B, LF, RF>(*right, *both_op, *left_op, *right_op, d, p);
                        }
                        let (t, couts) = ln.transform_with_transmuted::<M, W, R, RO, B, LF, RF>(
                            rn,
                            reduce_op,
                            both_op,
                            left_op,
                            right_op,
                            depth + 1,
                        );
                        proof {
                            ln.lemma_size_view::<M>(d + 1);
                            rn.lemma_size_view::<M>(d + 1);
                            assert(node_lookup::<K, V, M>(*ln, d + 1) =~= cll);
                            assert(node_lookup::<K, W, M>(*rn, d + 1) =~= crl);
                            assert(pk =~= keys_below::<K, V, W, M>(*ln, *rn, d + 1)) by {
                                assert forall|k: K| #[trigger] pk.contains(k) == keys_below::<K, V, W, M>(*ln, *rn, d + 1).contains(k) by {
                                    assert(cll(k) == ln.lookup::<M>(k, d + 1));
                                    assert(crl(k) == rn.lookup::<M>(k, d + 1));
                                }
                            }
                            assert(opt_node_after(Some(t), lnode) == t.node_after(*ln));
                            assert(pair_reduced_at(*reduce_op, jpred, jot, cll, crl, t.reduced()));
                        }
                        (Some(t), couts)
                    },
                    None => {
                        proof {
                            self.lemma_transform_transmute_side::<M, W, R, B, LF, RF>(*right, *both_op, *left_op, *right_op, d, p, true);
                        }
                        let t = ln.transform::<M, R, RO, LF>(reduce_op, left_op, depth + 1);
                        let ghost couts = Map::<K, MapTransmuteResult<K, V, R>>::empty();
                        proof {
                            assert(node_lookup::<K, V, M>(*ln, d + 1) =~= cll);
                            assert forall|k: K| #![trigger cll(k)] #![trigger opt_lookup::<K, V, M>(t.node_after(*ln), d + 1)(k)] transformed_entry(
                                *left_op,
                                k,
                                cll(k),
                                opt_lookup::<K, V, M>(t.node_after(*ln), d + 1)(k),
                            ) by {
                                assert(cll(k) == ln.lookup::<M>(k, d + 1));
                                assert(opt_lookup::<K, V, M>(t.node_after(*ln), d + 1)(k) == lookup_in::<K, V, M>(t.node_after(*ln), k, d + 1));
                            }
                            lemma_transform_transmute_left_alone::<K, V, W, R, B, LF, RF>(
                                *both_op,
                                *left_op,
                                *right_op,
                                cll,
                                crl,
                                opt_lookup::<K, V, M>(t.node_after(*ln), d + 1),
                            );
                            ln.lemma_size_view::<M>(d + 1);
                            assert(pk =~= ln.view_at::<M>(d + 1).dom()) by {
                                assert forall|k: K| #[trigger] pk.contains(k) == ln.view_at::<M>(d + 1).dom().contains(k) by {
                                    assert(cll(k) == ln.lookup::<M>(k, d + 1));
                                }
                            }
                            if let Some(n) = t.node_after(*ln) {
                                n.lemma_size_view::<M>(d + 1);
                                assert(n.view_at::<M>(d + 1).dom().subset_of(ln.view_at::<M>(d + 1).dom())) by {
                                    assert forall|k: K| n.view_at::<M>(d + 1).dom().contains(k) implies #[trigger] ln.view_at::<M>(
                                        d + 1,
                                    ).dom().contains(k) by {
                                        assert(transformed_entry(*left_op, k, ln.lookup::<M>(k, d + 1), lookup_in::<K, V, M>(Some(n), k, d + 1)));
                                    }
                                }
                                vstd::set_lib::lemma_len_subset(n.view_at::<M>(d + 1).dom(), ln.view_at::<M>(d + 1).dom());
                            }
                            assert(opt_node_after(Some(t), lnode) == t.node_after(*ln));
                            assert forall|k: K| #[trigger] crl(k) is None by {
                            }
                            lemma_transform_transmute_reduced_left::<K, V, W, R, RO, B, LF, RF, M>(
                                *reduce_op,
                                *both_op,
                                *left_op,
                                *right_op,
                                *ln,
                                d + 1,
                                crl,
                                t.reduced(),
                            );
                            assert(pair_reduced_at(*reduce_op, jpred, jot, cll, crl, t.reduced()));
                        }
                        (Some(t), Ghost(couts))
                    },
                },
                None => match rchild {
                    Some(rn) => {
                        proof {
                            self.lemma_transform_transmute_side::<M, W, R, B, LF, RF>(*right, *both_op, *left_op, *right_op, d, p, false);
                        }
                        let (tm, couts) = rn.transmute::<K, V, R, RO, RF, M>(reduce_op, right_op, depth + 1);
                        let t = match tm {
                            TransmuteResult::C(c, r) => TransformResult::C(c, r),
                            TransmuteResult::L(l, r) => TransformResult::L(l, r),
                            TransmuteResult::S(s, r) => TransformResult::S(s, r),
                            TransmuteResult::Removed(r) => TransformResult::Removed(r),
                        };
                        proof {
                            assert(opt_node_after(Some(t), lnode) == tm.node());
                            assert(node_lookup::<K, W, M>(*rn, d + 1) =~= crl);
                            lemma_transform_transmute_right_alone::<K, V, W, R, B, LF, RF>(
                                *both_op,
                                *left_op,
                                *right_op,
                                cll,
                                crl,
                                opt_lookup::<K, V, M>(tm.node(), d + 1),
                                couts@,
                            );
                            rn.lemma_size_view::<M>(d + 1);
                            assert(pk =~= rn.view_at::<M>(d + 1).dom()) by {
                                assert forall|k: K| #[trigger] pk.contains(k) == rn.view_at::<M>(d + 1).dom().contains(k) by {
                                    assert(crl(k) == rn.lookup::<M>(k, d + 1));
                                }
                            }
                            assert forall|k: K| #[trigger] cll(k) is None by {
                            }
                            lemma_transform_transmute_reduced_right::<K, V, W, R, RO, B, LF, RF>(
                                *reduce_op,
                                *both_op,
                                *left_op,
                                *right_op,
                                cll,
                                crl,
                                tm.reduced(),
                            );
                            assert(t.reduced() == tm.reduced());
                            assert(pair_reduced_at(*reduce_op, jpred, jot, cll, crl, t.reduced()));
                        }
                        (Some(t), couts)
                    },
                    None => {
                        proof {
                            assert(pk =~= Set::<K>::empty());
                            assert forall|k: K| #[trigger] cll(k) is None && #[trigger] crl(k) is None by {
                            }
                            assert(transform_transmuted_lookups(
                                *both_op,
                                *left_op,
                                *right_op,
                                cll,
                                crl,
                                opt_lookup::<K, V, M>(None, d + 1),
                                Map::<K, MapTransmuteResult<K, V, R>>::empty(),
                            ));
                        }
                        (None, Ghost(Map::<K, MapTransmuteResult<K, V, R>>::empty()))
                    },
                },
            };
            let ghost jnew = opt_node_after(t_opt, lnode);
            proof {
                assert(transform_transmuted_lookups(*both_op, *left_op, *right_op, cll, crl, opt_lookup::<K, V, M>(jnew, d + 1), couts@));
                assert(jnew matches Some(n) ==> n.wf::<M>(d + 1) && n.size_of() <= pk.len());
                assert(t_opt matches Some(t) ==> t is Unchanged ==> lc.contains_key(p));
            }
            let (new_child, red, keeps_l): (Option<MNode<K, V>>, Option<R>, bool) = match t_opt {
                None => (None, None, true),
                Some(TransformResult::Unchanged(r)) => (Some(lchild.unwrap().clone()), Some(r), true),
                Some(TransformResult::C(c, r)) => (Some(MNode::C(c)), Some(r), false),
                Some(TransformResult::L(l, r)) => (Some(MNode::L(l)), Some(r), false),
                Some(TransformResult::S(s, r)) => (Some(MNode::S(s)), Some(r), false),
                Some(TransformResult::Removed(r)) => (None, Some(r), lchild.is_none()),
            };
            proof {
                assert(new_child == jnew);
                assert(keeps_l ==> (jnew == Some(lc[p]) && lc.contains_key(p)) || (jnew is None && !lc.contains_key(p)));
            }
            if !keeps_l {
                unchanged_l = false;
            }
            let ghost at_p = Set::new(|k: K| hash_chunk(M::hash_of(k), d) == p);
            proof {
                assert(joint_keys_before::<K, V, W, M>(*self, *right, d, p).disjoint(at_p));
                assert(joint_keys_before::<K, V, W, M>(*self, *right, d, p).union(lookup_keys(cll).union(lookup_keys(crl)))
                    =~= joint_keys_before::<K, V, W, M>(*self, *right, d, p + 1)) by {
                    assert forall|k: K| #[trigger] joint_keys_before::<K, V, W, M>(*self, *right, d, p + 1).contains(k)
                        implies joint_keys_before::<K, V, W, M>(*self, *right, d, p).union(lookup_keys(cll).union(lookup_keys(crl))).contains(k) by {
                        if hash_chunk(M::hash_of(k), d) == p {
                            assert(pl(k) == cll(k) && pr(k) == crl(k));
                        }
                    }
                    assert forall|k: K| #[trigger] lookup_keys(cll).union(lookup_keys(crl)).contains(k) implies joint_keys_before::<K, V, W, M>(*self, *right, d, p + 1).contains(k) by {
                        assert(hash_chunk(M::hash_of(k), d) == p);
                        assert(pl(k) == cll(k) && pr(k) == crl(k));
                    }
                }
            }
            match red {
                Some(r) => {
                    reduced = reduce_op(&reduced, &r);
                    proof {
                        assert(t_opt matches Some(t) && t.reduced() == r);
                        red_t = lemma_pair_reduced_step(
                            *reduce_op,
                            jpred,
                            jot,
                            pl,
                            pr,
                            cll,
                            crl,
                            at_p,
                            joint_keys_before::<K, V, W, M>(*self, *right, d, p),
                            red_t,
                            r,
                            reduced,
                        );
                    }
                },
                None => {
                    proof {
                        assert(lookup_keys(cll).union(lookup_keys(crl)) =~= Set::<K>::empty());
                        assert(joint_keys_before::<K, V, W, M>(*self, *right, d, p + 1) =~= joint_keys_before::<K, V, W, M>(
                            *self,
                            *right,
                            d,
                            p,
                        ));
                    }
                },
            }
            proof {
                outs = pre_outs.union_prefer_right(couts@);
                oldk = pre_oldk.union(pk);
                assert forall|k: K| #[trigger] couts@.dom().contains(k) implies hash_chunk(M::hash_of(k), d) == p && pl(k) == cll(k)
                    && pr(k) == crl(k) by {
                    assert(crl(k) is Some);
                }
                assert(pre_oldk.disjoint(pk)) by {
                    assert forall|k: K| pre_oldk.contains(k) implies !pk.contains(k) by {
                    }
                }
                vstd::set_lib::lemma_set_disjoint_lens(pre_oldk, pk);
                vstd::set_lib::lemma_len_subset(oldk, all);
                // The new keys at this position keep its chunk.
                assert forall|k: K| #[trigger] lookup_in::<K, V, M>(jnew, k, d + 1) is Some implies hash_chunk(M::hash_of(k), d) == p by {
                    if cll(k) is None {
                        assert(opt_lookup::<K, V, M>(jnew, d + 1)(k) is Some);
                        let k0 = choose|k0: K| #[trigger]
                            couts@.dom().contains(k0) && couts@[k0].new_entry() is Some && couts@[k0].new_entry()->Some_0.0 == k;
                        assert(right_op.gives(k0, crl(k0)->Some_0, couts@[k0]));
                        assert(right_op.gives(k0, pr(k0)->Some_0, couts@[k0]));
                    }
                }
                if keeps_l {
                    assert forall|k: K| #[trigger] couts@.dom().contains(k) implies couts@[k].new_entry() is None by {
                        if couts@[k].new_entry() is Some {
                            let f = couts@[k].new_entry()->Some_0;
                            assert(right_op.gives(k, pr(k)->Some_0, couts@[k]));
                            assert(pl(f.0) is None);
                            assert(hash_chunk(M::hash_of(f.0), d) == p);
                            assert(opt_lookup::<K, V, M>(jnew, d + 1)(f.0) == Some(f.1));
                            assert(cll(f.0) is None);
                        }
                    }
                }
            }
            match new_child {
                Some(n) => {
                    let ghost nd = n.view_at::<M>(d + 1).dom();
                    proof {
                        n.lemma_size_view::<M>(d + 1);
                        assert forall|k: K| #[trigger] n.lookup::<M>(k, d + 1) is Some implies hash_chunk(M::hash_of(k), d) == p by {
                            assert(lookup_in::<K, V, M>(jnew, k, d + 1) is Some);
                        }
                        assert(pre_keys.disjoint(nd)) by {
                            assert forall|k: K| pre_keys.contains(k) implies !nd.contains(k) by {
                                assert(child_lookup::<K, V, M>(pre_newc, k, d) is Some);
                            }
                        }
                        vstd::set_lib::lemma_set_disjoint_lens(pre_keys, nd);
                    }
                    size = size + n.size();
                    let bit = u32::nth_bit(index).unwrap();
                    proof {
                        lemma_only_bit(32, p);
                        assert(!pre_bits[p]);
                    }
                    bits_t = bits_t.bit_insert(bit).unwrap();
                    values_t.push(n);
                    proof {
                        newc = pre_newc.insert(p, n);
                        keys = pre_keys.union(nd);
                        lemma_count_set_bit(pre_bits, p, p);
                        lemma_count_split(pre_bits, p);
                        lemma_count_zero(pre_bits.skip(p));
                        assert(bits_t.bit_seq() == pre_bits.update(p, true));
                        assert forall|q: int| #[trigger] newc.contains_key(q) implies values_t@[rank(
                            bits_t.bit_seq(),
                            q,
                        ) as int] == newc[q] by {
                            lemma_count_set_bit(pre_bits, p, q);
                            if q != p {
                                lemma_rank_lt_count(pre_bits, q);
                            }
                        }
                        assert forall|k: K| #[trigger] keys.contains(k) <==> child_lookup::<K, V, M>(newc, k, d) is Some by {
                            if hash_chunk(M::hash_of(k), d) == p {
                                if pre_keys.contains(k) {
                                    assert(child_lookup::<K, V, M>(pre_newc, k, d) is Some);
                                }
                            } else {
                                assert(child_lookup::<K, V, M>(newc, k, d) == child_lookup::<K, V, M>(pre_newc, k, d));
                            }
                        }
                    }
                },
                None => {},
            }
            proof {
                assert forall|k: K| #[trigger] child_lookup::<K, V, M>(newc, k, d) == if hash_chunk(M::hash_of(k), d) == p {
                    lookup_in::<K, V, M>(jnew, k, d + 1)
                } else {
                    child_lookup::<K, V, M>(pre_newc, k, d)
                } by {
                }
                assert forall|k: K| #[trigger] outs.dom().contains(k) <==> (hash_chunk(M::hash_of(k), d) < index + 1 && pl(k) is None
                    && pr(k) is Some) by {
                    if hash_chunk(M::hash_of(k), d) == p {
                        assert(pl(k) == cll(k) && pr(k) == crl(k));
                    }
                }
                assert forall|k: K| #[trigger] outs.dom().contains(k) implies right_op.gives(k, pr(k)->Some_0, outs[k]) by {
                    if couts@.dom().contains(k) {
                        assert(right_op.gives(k, crl(k)->Some_0, couts@[k]));
                    }
                }
                assert forall|k: K| hash_chunk(M::hash_of(k), d) < index + 1 && #[trigger] pl(k) is Some implies transform_with_transmuted_left_entry(
                    *both_op,
                    *left_op,
                    k,
                    pl(k)->Some_0,
                    pr(k),
                    child_lookup::<K, V, M>(newc, k, d),
                ) by {
                    if hash_chunk(M::hash_of(k), d) == p {
                        assert(pl(k) == cll(k) && pr(k) == crl(k));
                        assert(opt_lookup::<K, V, M>(jnew, d + 1)(k) == lookup_in::<K, V, M>(jnew, k, d + 1));
                    }
                }
                assert forall|k: K| #[trigger] outs.dom().contains(k) && outs[k].new_entry() is Some implies child_lookup::<K, V, M>(
                    newc,
                    outs[k].new_entry()->Some_0.0,
                    d,
                ) == Some(outs[k].new_entry()->Some_0.1) by {
                    let f = outs[k].new_entry()->Some_0;
                    assert(right_op.gives(k, pr(k)->Some_0, outs[k]));
                    assert(M::hash_of(f.0) == M::hash_of(k));
                    if couts@.dom().contains(k) {
                        assert(opt_lookup::<K, V, M>(jnew, d + 1)(f.0) == Some(f.1));
                    } else {
                        assert(child_lookup::<K, V, M>(pre_newc, f.0, d) == Some(f.1));
                    }
                }
                assert forall|s: K| #[trigger] child_lookup::<K, V, M>(newc, s, d) is Some && pl(s) is None implies exists|k: K| #[trigger]
                    outs.dom().contains(k) && outs[k].new_entry() is Some && outs[k].new_entry()->Some_0.0 == s by {
                    if hash_chunk(M::hash_of(s), d) == p {
                        assert(pl(s) == cll(s));
                        assert(opt_lookup::<K, V, M>(jnew, d + 1)(s) is Some);
                        let k = choose|k: K| #[trigger]
                            couts@.dom().contains(k) && couts@[k].new_entry() is Some && couts@[k].new_entry()->Some_0.0 == s;
                        assert(outs.dom().contains(k));
                    } else {
                        assert(child_lookup::<K, V, M>(pre_newc, s, d) is Some);
                        let k = choose|k: K| #[trigger]
                            pre_outs.dom().contains(k) && pre_outs[k].new_entry() is Some && pre_outs[k].new_entry()->Some_0.0 == s;
                        assert(outs.dom().contains(k));
                        assert(!couts@.dom().contains(k));
                    }
                }
                if unchanged_l {
                    assert forall|k: K| hash_chunk(M::hash_of(k), d) < index + 1 && #[trigger] pl(k) is Some implies transform_with_transmuted_left_entry(
                        *both_op,
                        *left_op,
                        k,
                        pl(k)->Some_0,
                        pr(k),
                        pl(k),
                    ) by {
                        if hash_chunk(M::hash_of(k), d) == p {
                            assert(pl(k) == cll(k) && pr(k) == crl(k));
                            assert(jnew == Some(lc[p]));
                            assert(opt_lookup::<K, V, M>(jnew, d + 1)(k) == cll(k));
                        }
                    }
                    assert forall|k: K| #[trigger] outs.dom().contains(k) implies outs[k].new_entry() is None by {
                        if couts@.dom().contains(k) {
                        }
                    }
                }
            }
            index = index + 1;
        }
        proof {
            assert(joint_keys_before::<K, V, W, M>(*self, *right, d, 32) =~= lookup_keys(pl).union(lookup_keys(pr))) by {
                assert forall|k: K| #[trigger] lookup_keys(pl).union(lookup_keys(pr)).contains(k) implies joint_keys_before::<
                    K,
                    V,
                    W,
                    M,
                >(*self, *right, d, 32).contains(k) by {
                    lemma_hash_chunk_range(M::hash_of(k), d);
                }
            }
            assert(red_t.combines(*reduce_op));
            assert forall|k: K| #[trigger] outs.dom().contains(k) <==> (pl(k) is None && pr(k) is Some) by {
                lemma_hash_chunk_range(M::hash_of(k), d);
            }
            assert forall|k: K| #[trigger] pl(k) == pl(k) implies hash_chunk(M::hash_of(k), d) < 32 by {
                lemma_hash_chunk_range(M::hash_of(k), d);
            }
            vstd::set_lib::lemma_len_subset(oldk, all);
        }
        if unchanged_l {
            proof {
                vstd::set_lib::lemma_len_subset(self.view_at::<M>(d).dom(), all);
                assert(opt_lookup::<K, V, M>(Some(*self), d) =~= pl);
                assert forall|k: K| #![trigger pl(k)] pl(k) is Some implies transform_with_transmuted_left_entry(
                    *both_op,
                    *left_op,
                    k,
                    pl(k)->Some_0,
                    pr(k),
                    pl(k),
                ) by {
                    lemma_hash_chunk_range(M::hash_of(k), d);
                }
            }
            return (TransformResult::Unchanged(reduced), Ghost(outs));
        }
        proof {
            assert forall|k: K| #![trigger pl(k)] #![trigger child_lookup::<K, V, M>(newc, k, d)] pl(k) is Some implies transform_with_transmuted_left_entry(
                *both_op,
                *left_op,
                k,
                pl(k)->Some_0,
                pr(k),
                child_lookup::<K, V, M>(newc, k, d),
            ) by {
                lemma_hash_chunk_range(M::hash_of(k), d);
            }
        }
        if values_t.len() == 0 {
            proof {
                lemma_count_zero(bits_t.bit_seq());
                assert forall|k: K| #[trigger] child_lookup::<K, V, M>(newc, k, d) is None by {
                    lemma_hash_chunk_range(M::hash_of(k), d);
                    let q = hash_chunk(M::hash_of(k), d);
                    if newc.contains_key(q) {
                        assert(bits_t.bit_seq()[q]);
                    }
                }
                assert(opt_lookup::<K, V, M>(None, d) =~= |k: K| child_lookup::<K, V, M>(newc, k, d));
            }
            return (TransformResult::Removed(reduced), Ghost(outs));
        }
        if values_t.len() == 1 {
            let ghost q = crate::bitseq::lemma_rank_onto(bits_t.bit_seq(), 0);
            proof {
                assert(newc.contains_key(q));
                assert forall|q2: int| #[trigger] newc.contains_key(q2) implies q2 == q by {
                    if q2 != q {
                        crate::bitseq::lemma_rank_injective(bits_t.bit_seq(), q, q2);
                        lemma_rank_lt_count(bits_t.bit_seq(), q2);
                    }
                }
            }
            match &values_t[0] {
                MNode::C(_) => {},
                MNode::L(l) => {
                    proof {
                        assert(MNode::L(*l) == newc[q]);
                        MNode::lemma_sole_child::<M>(newc, q, d);
                        assert(opt_lookup::<K, V, M>(Some(MNode::L(*l)), d) =~= |k: K| child_lookup::<K, V, M>(newc, k, d));
                        assert(newc[q].size_of() == keys.len()) by {
                            newc[q].lemma_size_view::<M>(d);
                            assert forall|k2: K| #[trigger] newc[q].view_at::<M>(d).dom().contains(k2) == keys.contains(k2) by {
                                assert(lookup_in::<K, V, M>(Some(newc[q]), k2, d) == child_lookup::<K, V, M>(newc, k2, d));
                            }
                            assert(newc[q].view_at::<M>(d).dom() =~= keys);
                        }
                    }
                    return (TransformResult::L(l.clone(), reduced), Ghost(outs));
                },
                MNode::S(s) => {
                    proof {
                        assert(MNode::S(*s) == newc[q]);
                        MNode::lemma_sole_child::<M>(newc, q, d);
                        assert(opt_lookup::<K, V, M>(Some(MNode::S(*s)), d) =~= |k: K| child_lookup::<K, V, M>(newc, k, d));
                        assert(newc[q].size_of() == keys.len()) by {
                            newc[q].lemma_size_view::<M>(d);
                            assert forall|k2: K| #[trigger] newc[q].view_at::<M>(d).dom().contains(k2) == keys.contains(k2) by {
                                assert(lookup_in::<K, V, M>(Some(newc[q]), k2, d) == child_lookup::<K, V, M>(newc, k2, d));
                            }
                            assert(newc[q].view_at::<M>(d).dom() =~= keys);
                        }
                    }
                    return (TransformResult::S(s.clone(), reduced), Ghost(outs));
                },
            }
        }
        match new_bit_indexed_array(bits_t, values_t, size) {
            Ok(arr) => {
                let cn = CNode::new(arr);
                proof {
                    assert(cn.children() =~= newc);
                    let n = MNode::C(cn);
                    assert forall|k: K| #[trigger] n.lookup::<M>(k, d) == child_lookup::<K, V, M>(newc, k, d) by {
                    }
                    assert(n.view_at::<M>(d).dom() =~= keys);
                    assert(opt_lookup::<K, V, M>(Some(n), d) =~= |k: K| child_lookup::<K, V, M>(newc, k, d));
                }
                (TransformResult::C(cn, reduced), Ghost(outs))
            },
            Err(_) => {
                proof {
                    assert(false);
                }
                (TransformResult::Removed(reduced), Ghost(outs))
            },
        }
    }
}

} // verus!
