//! `HashTrieSet`: a persistent hash set on a hash array mapped trie.
use vstd::prelude::*;
use crate::hash_trie::HashTrie;
use crate::hashing::{HasherBv, Key};
use crate::results::HashTrieError;

verus! {

/// `HashTrieSet` implements a hash set using a hash array mapped trie (HAMT).
///
/// Every operation leaves the set it is called on unchanged and returns a new
/// set, which shares the untouched nodes with the old one.
pub struct HashTrieSet<V: Key, M: HasherBv<u64, V>> {
    root: HashTrie<V, (), M>,
}

impl<V: Key, M: HasherBv<u64, V>> View for HashTrieSet<V, M> {
    type V = Set<V>;

    closed spec fn view(&self) -> Set<V> {
        self.root@.dom()
    }
}

impl<V: Key, M: HasherBv<u64, V>> Clone for HashTrieSet<V, M> {
    /// A set sharing this set's nodes.
    fn clone(&self) -> (r: Self)
        ensures
            r@ == self@,
    {
        HashTrieSet { root: self.root.clone() }
    }
}

impl<V: Key, M: HasherBv<u64, V>> Default for HashTrieSet<V, M> {
    /// An empty set.
    fn default() -> (r: Self)
        ensures
            r@ == Set::<V>::empty(),
    {
        Self::new()
    }
}

impl<V: Key, M: HasherBv<u64, V>> HashTrieSet<V, M> {
    /// Get a new, empty HashTrieSet.
    pub fn new() -> (r: Self)
        ensures
            r@ == Set::<V>::empty(),
    {
        let r = HashTrieSet { root: HashTrie::new() };
        assert(r@ =~= Set::<V>::empty());
        r
    }

    /// Get the number of values in the set.
    pub fn size(&self) -> (r: usize)
        ensures
            self@.finite(),
            r == self@.len(),
    {
        self.root.size()
    }

    /// Search the HashTrieSet for the given value and return a reference if found, or `HashTrieError::NotFound` if not found.
    pub fn find<'a>(&'a self, value: &V) -> (r: Result<&'a V, HashTrieError>)
        ensures
            match r {
                Ok(v) => self@.contains(*value) && *v == *value,
                Err(e) => !self@.contains(*value) && e == HashTrieError::NotFound,
            },
    {
        match self.root.find(value) {
            Ok((v, _)) => Ok(v),
            Err(e) => Err(e),
        }
    }

    /// Search the HashTrieSet for the spot to insert the value and return a mutated set, or a reference to the existing value if found.
    pub fn insert<'a>(&'a self, value: V) -> (r: Result<Self, &'a V>)
        requires
            self@.len() < usize::MAX,
        ensures
            match r {
                Ok(s) => !self@.contains(value) && s@ == self@.insert(value),
                Err(v) => self@.contains(value) && *v == value,
            },
    {
        match self.root.insert(value, (), false) {
            Ok((root, _)) => {
                let r = HashTrieSet { root };
                assert(r@ =~= self@.insert(value));
                Ok(r)
            },
            Err((v, _)) => Err(v),
        }
    }

    /// Search the HashTrieSet for the given value to remove and return a mutated set, or `HashTrieError::NotFound` if not found.
    pub fn remove<'a>(&'a self, value: &V) -> (r: Result<(Self, &'a V), HashTrieError>)
        ensures
            match r {
                Ok((s, v)) => self@.contains(*value) && s@ == self@.remove(*value) && *v == *value,
                Err(e) => !self@.contains(*value) && e == HashTrieError::NotFound,
            },
    {
        match self.root.remove(value) {
            Ok((root, v, _)) => {
                let r = HashTrieSet { root };
                assert(r@ =~= self@.remove(*value));
                Ok((r, v))
            },
            Err(e) => Err(e),
        }
    }
}

/// A set that an insertion gave holds the value inserted, and every other value
/// as before; one that a removal gave lacks the value removed.
pub proof fn law_find_after_insert_remove<V: Key, M: HasherBv<u64, V>>(s: HashTrieSet<V, M>, v: V, w: V)
    ensures
        s@.insert(v).contains(v),
        !s@.remove(v).contains(v),
        w != v ==> (s@.insert(v).contains(w) == s@.contains(w) && s@.remove(v).contains(w) == s@.contains(w)),
{
}

/// Removing a value that an insertion added gives back the set from before,
/// and inserting a removed value again does too.
pub proof fn law_remove_undoes_insert<V: Key, M: HasherBv<u64, V>>(s: HashTrieSet<V, M>, v: V)
    ensures
        !s@.contains(v) ==> s@.insert(v).remove(v) == s@,
        s@.contains(v) ==> s@.remove(v).insert(v) == s@,
{
    assert(!s@.contains(v) ==> s@.insert(v).remove(v) =~= s@);
    assert(s@.contains(v) ==> s@.remove(v).insert(v) =~= s@);
}

/// An insertion adds one value, and a removal takes one away.
pub proof fn law_size<V: Key, M: HasherBv<u64, V>>(s: HashTrieSet<V, M>, v: V)
    requires
        s@.finite(),
    ensures
        !s@.contains(v) ==> s@.insert(v).len() == s@.len() + 1,
        s@.contains(v) ==> s@.remove(v).len() + 1 == s@.len(),
{
}


} // verus!
