# hash_trie

Persistent hash maps and sets on a hash array mapped trie (HAMT), written in
Verus. Every operation leaves the map or set it is called on unchanged and
returns a new one that shares the untouched nodes with the old one.

Each public function states in its contract what it does to the map or set as
a mathematical `Map` or `Set`, and Verus proves the code against it. The
transform, transmute and joint operations also state what their reduced
value is: a combination by the reduce operation, in some order that the
trie's shape decides, of default values and of exactly one secondary value
per entry, the one that the operation gave on it (a copy of the constant
for a constant operation).

Layout of `src/`:

- `traits.rs`, `bitseq.rs`: bit words and their model as sequences of bits.
- `bit_indexed_array.rs`: a sparse array indexed by the set bits of a word.
- `flag.rs`: the chunk of a hash that selects a child at each depth.
- `hashing.rs`: keys, hashers, and the FNV-1a hash of the `fnv` crate.
- `node.rs`: the trie's nodes and the recursive operations on them.
- `hash_trie.rs`: the trie with its well-formedness as a type invariant.
- `map.rs`, `set.rs`: the public `HashTrieMap` and `HashTrieSet`.
- `results.rs`, `transformations.rs`: the operations run on entries by the
  transform, transmute and joint operations, and what they mean.
- `reduction.rs`: the trees of reduce-operation results that describe a
  reduced value.
