//! Persistent hash maps and sets on a hash array mapped trie (HAMT), with
//! contracts proved by Verus.
use vstd::prelude::*;

pub mod bit_indexed_array;
pub mod bitseq;
pub mod enums;
pub mod flag;
pub mod hash_trie;
pub mod hashing;
pub mod map;
pub mod node;
pub mod reduction;
pub mod results;
pub mod set;
pub mod traits;
pub mod transformations;

pub use enums::ParallelismStrategy;
pub use map::HashTrieMap;
pub use set::HashTrieSet;

verus! {

/// A HashTrieSet using 64-bit hashes, 32-bit flags, and FnvHasher
pub type DefaultHashTrieSet<V> = set::HashTrieSet<V, fnv::FnvHasher>;

/// A HashTrieMap using 64-bit hashes, 32-bit flags, and FnvHasher
pub type DefaultHashTrieMap<K, V> = map::HashTrieMap<K, V, fnv::FnvHasher>;

} // verus!
